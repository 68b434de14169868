//! What errors say.

use glyde::time::TimestampFormat;
use glyde::GlydeError;

#[test]
fn displays_a_human_readable_message() {
    let err = GlydeError::Io {
        path: "/nonexistent/glyde-error-test.csv".to_string(),
        source: "no such file".to_string(),
    };
    assert_eq!(
        err.message(),
        "could not read /nonexistent/glyde-error-test.csv: no such file"
    );
}

#[test]
fn every_error_says_what_it_is_about() {
    assert_eq!(
        GlydeError::UnrecognizedFormat {
            path: "a.xyz".to_string()
        }
        .message(),
        "unrecognized format: a.xyz"
    );
    assert_eq!(
        GlydeError::EmptyFile.message(),
        "empty file: no data to read"
    );
    assert_eq!(
        GlydeError::SingleColumnFile.message(),
        "single-column file: no data series to plot"
    );
    assert_eq!(
        GlydeError::NonNumericTimeIndex {
            input: "abc".to_string()
        }
        .message(),
        "time index is neither a timestamp nor a number: abc"
    );
    assert_eq!(
        GlydeError::InvalidTimestamp {
            input: "abc".to_string(),
            format: TimestampFormat::EpochSeconds,
            reason: "invalid digit found in string".to_string(),
        }
        .message(),
        "invalid timestamp abc: invalid digit found in string"
    );
    assert_eq!(
        GlydeError::BudgetExceeded {
            requested_bytes: 12,
            cap_bytes: 7
        }
        .message(),
        "memory budget exceeded: 12 bytes requested, 7 bytes allowed"
    );
    assert_eq!(
        GlydeError::CorruptCache {
            path: "x.glysp".to_string(),
            reason: "too short".to_string()
        }
        .message(),
        "corrupt cache file x.glysp: too short"
    );
    assert_eq!(
        GlydeError::CacheDirUnavailable.message(),
        "no cache directory is available"
    );
}
