//! Payload MTU for a cover domain: `floor((240 - L) / 1.6)`, computed in integers
//! as `(240 - L) * 5 / 8` (eight label symbols carry five payload bytes).

use vstd::prelude::*;
use crate::config::{AddressFamily, ConfigError};

verus! {

/// Longest cover domain, in octets, that leaves room for payload labels.
pub const MAX_DOMAIN_LEN: usize = 240;

/// Payload bytes that fit the query name of a cover domain of `domain_len` octets.
pub open spec fn mtu_for(domain_len: nat) -> nat {
    if domain_len < 240 {
        ((240 - domain_len) * 5 / 8) as nat
    } else {
        0
    }
}

pub open spec fn too_long_msg() -> Seq<char> {
    "Domain name is too long for DNS transport"@
}

pub open spec fn zero_mtu_msg() -> Seq<char> {
    "MTU computed to zero; check domain length"@
}

/// What a platform allows for UDP: the socket family to bind, and a ceiling on
/// datagram payloads where its stack imposes one.
#[derive(Debug, Clone, Copy)]
pub struct PlatformCaps {
    pub bind_family: AddressFamily,
    pub udp_mtu_cap: Option<u32>,
}

pub open spec fn capped(mtu: nat, cap: Option<u32>) -> nat {
    match cap {
        Some(c) => if (c as nat) < mtu {
            c as nat
        } else {
            mtu
        },
        None => mtu,
    }
}

/// The MTU for a cover domain of `domain_len` octets under an optional ceiling,
/// or the message of the configuration error.
pub open spec fn mtu_outcome(domain_len: nat, cap: Option<u32>) -> Result<nat, Seq<char>> {
    if domain_len >= 240 {
        Err(too_long_msg())
    } else if capped(mtu_for(domain_len), cap) == 0 {
        Err(zero_mtu_msg())
    } else {
        Ok(capped(mtu_for(domain_len), cap))
    }
}

pub open spec fn mtu_matches(r: Result<u32, ConfigError>, o: Result<nat, Seq<char>>) -> bool {
    match o {
        Ok(m) => r == Ok::<u32, ConfigError>(m as u32),
        Err(msg) => r matches Err(e) && e.spec_message() == msg,
    }
}

/// The MTU for a cover domain of `domain_len` octets, without a platform ceiling.
pub fn compute_mtu(domain_len: usize) -> (r: Result<u32, ConfigError>)
    ensures
        mtu_matches(r, mtu_outcome(domain_len as nat, None)),
{
    compute_mtu_capped(domain_len, None)
}

/// The MTU for a cover domain of `domain_len` octets, lowered to `cap` when given.
pub fn compute_mtu_capped(domain_len: usize, cap: Option<u32>) -> (r: Result<u32, ConfigError>)
    ensures
        mtu_matches(r, mtu_outcome(domain_len as nat, cap)),
{
    if domain_len >= MAX_DOMAIN_LEN {
        return Err(ConfigError::new(String::from_str("Domain name is too long for DNS transport")));
    }
    let mut mtu: u32 = ((240 - domain_len) * 5 / 8) as u32;
    if let Some(c) = cap {
        if c < mtu {
            mtu = c;
        }
    }
    if mtu == 0 {
        return Err(ConfigError::new(String::from_str("MTU computed to zero; check domain length")));
    }
    Ok(mtu)
}

} // verus!
