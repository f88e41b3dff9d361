use fio::PoolState;
use fio::PoolStatus;
use fio::get_parallelism_settings;
use fio::set_max_threads;

/// The whole state machine in one test, because the underlying global pool
/// of the process can only ever be installed once: before any configuration
/// nothing is reported; the first request (0 asks for every available
/// processor) installs the pool; later requests change nothing; and a stale
/// `Uninitialized` state meets the already-installed pool and reports it.
#[test]
fn pool_configuration_state_machine() {
    assert_eq!(get_parallelism_settings(PoolState::Uninitialized), None);
    let (s1, r1) = set_max_threads(PoolState::Uninitialized, 0);
    match r1 {
        PoolStatus::Installed(t) => {
            assert!(t >= 1);
            assert_eq!(s1, PoolState::Configured(t));
            assert_eq!(get_parallelism_settings(s1), Some(t));
            // a second request on the configured state is a typed no-op
            let (s2, r2) = set_max_threads(s1, 8);
            assert_eq!(s2, s1);
            assert_eq!(r2, PoolStatus::AlreadyConfigured(t));
            // a stale uninitialized state meets the live global pool
            let (s3, r3) = set_max_threads(PoolState::Uninitialized, 4);
            assert_eq!(s3, PoolState::Uninitialized);
            assert_eq!(r3, PoolStatus::Unavailable);
        },
        other => panic!("first configuration reported {:?}", other),
    }
}
