//! Validated database connection-pool settings.
use vstd::prelude::*;

verus! {

#[derive(Debug, Clone, Copy, PartialEq, Eq, Structural)]
pub enum PoolError {
    InvalidConnections,
    InvalidTimeout,
}

#[derive(Debug, Clone, Copy, PartialEq, Eq, Structural)]
pub struct PoolPolicy {
    pub max_connections: u32,
    pub min_connections: u32,
    pub acquire_timeout_ms: u64,
    pub idle_timeout_ms: u64,
}

/// Default wait for a connection, in milliseconds.
pub const DEFAULT_ACQUIRE_TIMEOUT_MS: u64 = 30_000;

/// Default idle time before a connection is closed, in milliseconds.
pub const DEFAULT_IDLE_TIMEOUT_MS: u64 = 600_000;

impl PoolPolicy {
    /// Up to `max_connections` connections (at least one), none kept open, default timeouts.
    pub fn new(max_connections: u32) -> (r: Result<PoolPolicy, PoolError>)
        ensures
            max_connections == 0 ==> r == Err::<PoolPolicy, _>(PoolError::InvalidConnections),
            max_connections > 0 ==> r == Ok::<PoolPolicy, PoolError>(
                PoolPolicy {
                    max_connections,
                    min_connections: 0,
                    acquire_timeout_ms: DEFAULT_ACQUIRE_TIMEOUT_MS,
                    idle_timeout_ms: DEFAULT_IDLE_TIMEOUT_MS,
                },
            ),
    {
        if max_connections == 0 {
            return Err(PoolError::InvalidConnections);
        }
        Ok(
            PoolPolicy {
                max_connections,
                min_connections: 0,
                acquire_timeout_ms: DEFAULT_ACQUIRE_TIMEOUT_MS,
                idle_timeout_ms: DEFAULT_IDLE_TIMEOUT_MS,
            },
        )
    }

    /// Keeps at least `min` connections open; at most the maximum.
    pub fn min_connections(self, min: u32) -> (r: Result<PoolPolicy, PoolError>)
        ensures
            min > self.max_connections ==> r == Err::<PoolPolicy, _>(PoolError::InvalidConnections),
            min <= self.max_connections ==> r == Ok::<PoolPolicy, PoolError>(
                PoolPolicy { min_connections: min, ..self },
            ),
    {
        if min > self.max_connections {
            return Err(PoolError::InvalidConnections);
        }
        Ok(PoolPolicy { min_connections: min, ..self })
    }

    /// Waits at most `ms` milliseconds (positive) for a connection.
    pub fn acquire_timeout_ms(self, ms: u64) -> (r: Result<PoolPolicy, PoolError>)
        ensures
            ms == 0 ==> r == Err::<PoolPolicy, _>(PoolError::InvalidTimeout),
            ms > 0 ==> r == Ok::<PoolPolicy, PoolError>(PoolPolicy { acquire_timeout_ms: ms, ..self }),
    {
        if ms == 0 {
            return Err(PoolError::InvalidTimeout);
        }
        Ok(PoolPolicy { acquire_timeout_ms: ms, ..self })
    }

    /// Closes connections idle for `ms` milliseconds (positive).
    pub fn idle_timeout_ms(self, ms: u64) -> (r: Result<PoolPolicy, PoolError>)
        ensures
            ms == 0 ==> r == Err::<PoolPolicy, _>(PoolError::InvalidTimeout),
            ms > 0 ==> r == Ok::<PoolPolicy, PoolError>(PoolPolicy { idle_timeout_ms: ms, ..self }),
    {
        if ms == 0 {
            return Err(PoolError::InvalidTimeout);
        }
        Ok(PoolPolicy { idle_timeout_ms: ms, ..self })
    }
}

impl Default for PoolPolicy {
    fn default() -> (p: Self)
        ensures
            p == (PoolPolicy {
                max_connections: 10,
                min_connections: 0,
                acquire_timeout_ms: DEFAULT_ACQUIRE_TIMEOUT_MS,
                idle_timeout_ms: DEFAULT_IDLE_TIMEOUT_MS,
            }),
    {
        PoolPolicy {
            max_connections: 10,
            min_connections: 0,
            acquire_timeout_ms: DEFAULT_ACQUIRE_TIMEOUT_MS,
            idle_timeout_ms: DEFAULT_IDLE_TIMEOUT_MS,
        }
    }
}

} // verus!
