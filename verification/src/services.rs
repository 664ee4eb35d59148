//! Local services such as databases.
use vstd::prelude::*;

use crate::ports::Port;

verus! {

/// A kind of local service.
#[derive(Debug, Clone, Copy, PartialEq, Eq, Structural)]
pub enum ServiceKind {
    Mysql,
    Postgresql,
    Redis,
}

/// A local service and the port it listens on.
#[derive(Debug, Clone, PartialEq, Eq)]
pub struct Service {
    pub name: String,
    pub kind: ServiceKind,
    pub port: Port,
}

/// The port a kind of service listens on unless configured otherwise.
pub open spec fn default_port_number(kind: ServiceKind) -> u16 {
    match kind {
        ServiceKind::Mysql => 3306,
        ServiceKind::Postgresql => 5432,
        ServiceKind::Redis => 6379,
    }
}

impl ServiceKind {
    /// The port this kind of service listens on unless configured otherwise: 3306 for
    /// MySQL, 5432 for PostgreSQL, 6379 for Redis.
    pub fn default_port(self) -> (r: Port)
        ensures
            r@ == default_port_number(self),
    {
        let number: u16 = match self {
            ServiceKind::Mysql => 3306,
            ServiceKind::Postgresql => 5432,
            ServiceKind::Redis => 6379,
        };
        match Port::new(number) {
            Some(port) => port,
            None => {
                assert(false);
                Port::new(1).unwrap()
            },
        }
    }
}

} // verus!
