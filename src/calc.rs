//! The commands that build the address sets: `+CIDR` or `CIDR` adds a block,
//! `-CIDR` removes one, each in the set of the block's family.
use vstd::prelude::*;
use vstd::slice::slice_subrange;
use vstd::string::StringSliceAdditionalSpecFns;
use crate::cidr::tree::IpTree;
use crate::cidr::{cidr_of, Cidr, ParseError, Protocol};

verus! {

/// What a command asks: whether it adds (else removes), and the block.
pub open spec fn command_of(s: Seq<u8>) -> Result<(bool, Cidr), ParseError> {
    if s.len() > 0 && (s[0] == 43 || s[0] == 45) {
        match cidr_of(s.drop_first()) {
            Ok(c) => Ok((s[0] == 43, c)),
            Err(e) => Err(e),
        }
    } else {
        match cidr_of(s) {
            Ok(c) => Ok((true, c)),
            Err(e) => Err(e),
        }
    }
}

/// The pair of sets that the commands build: one of IPv4 blocks and one of
/// IPv6 blocks.
pub open spec fn sets_ok<V>(tree4: IpTree<V>, tree6: IpTree<V>) -> bool {
    tree4.wf() && tree6.wf() && tree4.depth() <= Protocol::IPv4.width()
}

/// Carries out one command on the set of its block's family and leaves the
/// other set as it was. Returns `false` for a removal of a block that was
/// not held whole, `true` otherwise.
pub fn apply_command<V>(tree4: &mut IpTree<V>, tree6: &mut IpTree<V>, cmd: &str) -> (r: Result<bool, ParseError>)
    requires
        sets_ok(*old(tree4), *old(tree6)),
    ensures
        sets_ok(*final(tree4), *final(tree6)),
        match command_of(cmd.spec_bytes()) {
            Err(e) => r == Err::<bool, ParseError>(e) && *final(tree4) == *old(tree4) && *final(tree6) == *old(tree6),
            Ok((add, c)) => {
                let (before, after) = if c.protocol == Protocol::IPv4 {
                    (*old(tree4), *final(tree4))
                } else {
                    (*old(tree6), *final(tree6))
                };
                &&& c.protocol == Protocol::IPv4 ==> *final(tree6) == *old(tree6)
                &&& c.protocol == Protocol::IPv6 ==> *final(tree4) == *old(tree4)
                &&& add ==> after@ == before@.union(c.block()) && r == Ok::<bool, ParseError>(true)
                &&& !add ==> after@ == before@.difference(c.block()) && r == Ok::<bool, ParseError>(
                    c.block().subset_of(before@),
                )
            },
        },
{
    let s = cmd.as_bytes();
    let (add, text) = if s.len() > 0 && (s[0] == 43 || s[0] == 45) {
        (s[0] == 43, slice_subrange(s, 1, s.len()))
    } else {
        (true, s)
    };
    assert(s.len() > 0 ==> s@.drop_first() =~= s@.subrange(1, s@.len() as int));
    let c = match Cidr::parse_bytes(text) {
        Ok(c) => c,
        Err(e) => {
            return Err(e);
        },
    };
    match c.protocol {
        Protocol::IPv4 => {
            if add {
                tree4.add(&c);
                Ok(true)
            } else {
                Ok(tree4.sub(&c))
            }
        },
        Protocol::IPv6 => {
            if add {
                tree6.add(&c);
                Ok(true)
            } else {
                Ok(tree6.sub(&c))
            }
        },
    }
}

} // verus!
