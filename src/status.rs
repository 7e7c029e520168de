use vstd::prelude::*;

verus! {

/// Status of one probed domain, derived from the registry's reply code.
#[derive(Debug, Clone, Copy, PartialEq, Eq, Structural)]
pub enum DomainStatus {
    Available,
    Registered,
    RateLimited,
    Error,
}

/// The fixed table from reply code to status.
pub open spec fn status_of(code: int) -> DomainStatus {
    if code == 1 {
        DomainStatus::Available
    } else if code == 0 {
        DomainStatus::Registered
    } else if code == -95 {
        DomainStatus::RateLimited
    } else {
        DomainStatus::Error
    }
}

/// The lowercase name of each status.
pub open spec fn status_name(s: DomainStatus) -> Seq<char> {
    match s {
        DomainStatus::Available => seq!['a', 'v', 'a', 'i', 'l', 'a', 'b', 'l', 'e'],
        DomainStatus::Registered => seq!['r', 'e', 'g', 'i', 's', 't', 'e', 'r', 'e', 'd'],
        DomainStatus::RateLimited => seq![
            'r', 'a', 't', 'e', '_', 'l', 'i', 'm', 'i', 't', 'e', 'd'
        ],
        DomainStatus::Error => seq!['e', 'r', 'r', 'o', 'r'],
    }
}

impl DomainStatus {
    /// Classifies a reply code: 1 is available, 0 registered, -95 rate
    /// limited, anything else an error.
    pub fn from_reply_code(code: i32) -> (r: DomainStatus)
        ensures
            r == status_of(code as int),
    {
        match code {
            1 => DomainStatus::Available,
            0 => DomainStatus::Registered,
            -95 => DomainStatus::RateLimited,
            _ => DomainStatus::Error,
        }
    }

    pub fn as_str(&self) -> (r: &'static str)
        ensures
            r@ == status_name(*self),
    {
        proof {
            reveal_strlit("available");
            reveal_strlit("registered");
            reveal_strlit("rate_limited");
            reveal_strlit("error");
        }
        match self {
            DomainStatus::Available => "available",
            DomainStatus::Registered => "registered",
            DomainStatus::RateLimited => "rate_limited",
            DomainStatus::Error => "error",
        }
    }
}

} // verus!
