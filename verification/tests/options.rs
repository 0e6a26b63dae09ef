use litesdb::options::validate;
use litesdb::{
    CompactionPolicy, Duration, ErrorKind, OpenOptions, SealPolicy, SyncPolicy,
};

#[test]
fn compaction_policy_rejects_subsecond_or_reversed_windows() {
    for compaction in [
        CompactionPolicy {
            l1_window: Duration::from_millis(500),
            l2_window: Duration::from_secs(1),
        },
        CompactionPolicy {
            l1_window: Duration::from_secs(2),
            l2_window: Duration::from_secs(1),
        },
    ] {
        assert_eq!(
            validate(OpenOptions {
                compaction,
                ..OpenOptions::default()
            })
            .err()
            .map(|error| error.kind()),
            Some(ErrorKind::InvalidArgument)
        );
    }
}

#[test]
fn default_options_are_accepted() {
    let options = OpenOptions::default();
    assert!(validate(options).is_ok());
    assert_eq!(options.seal_policy, SealPolicy::default());
    assert_eq!(options.compaction.l1_window, Duration::from_secs(7_200));
    assert_eq!(options.compaction.l2_window, Duration::from_secs(86_400));
    assert_eq!(options.seal_policy.interval.as_secs(), 300);
}

#[test]
fn every_policy_is_checked() {
    let base = OpenOptions::default();
    let zero = Duration::from_secs(0);
    let mut bad = Vec::new();
    bad.push(OpenOptions {
        sync_policy: SyncPolicy::Interval {
            every: zero,
            bytes: 1,
        },
        ..base
    });
    bad.push(OpenOptions {
        sync_policy: SyncPolicy::Interval {
            every: Duration::from_millis(1),
            bytes: 0,
        },
        ..base
    });
    bad.push(OpenOptions {
        seal_policy: SealPolicy {
            bytes: 0,
            ..base.seal_policy
        },
        ..base
    });
    bad.push(OpenOptions {
        seal_policy: SealPolicy {
            memory_bytes: 67_108_865,
            ..base.seal_policy
        },
        ..base
    });
    for options in bad {
        assert_eq!(
            validate(options).err().map(|error| error.kind()),
            Some(ErrorKind::InvalidArgument)
        );
    }
    assert_eq!(
        validate(OpenOptions {
            directory_cache_bytes: u32::MAX,
            ..base
        })
        .err()
        .map(|error| error.kind()),
        Some(ErrorKind::ResourceExhausted)
    );
    assert!(validate(OpenOptions {
        sync_policy: SyncPolicy::Manual,
        ..base
    })
    .is_ok());
}

#[test]
fn durations_split_into_seconds_and_nanoseconds() {
    let span = Duration::from_millis(1_500);
    assert_eq!(span.as_secs(), 1);
    assert_eq!(span.subsec_nanos(), 500_000_000);
    assert!(!span.is_zero());
    assert!(Duration::from_secs(0).is_zero());
    assert!(Duration::from_secs(2).exceeds(span));
    assert!(!span.exceeds(span));
}
