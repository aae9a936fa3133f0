//! Recognising loopback and unspecified addresses by their text.

use vstd::prelude::*;
use crate::text::{
    chars_equal, chars_match_at, has_prefix, is_white_space, trim, trim_end, trim_start, trimmed_chars,
};

verus! {

/// `127.`, the prefix of the IPv4 loopback range.
pub open spec fn ipv4_loopback_prefix() -> Seq<char> {
    seq!['1', '2', '7', '.']
}

/// `::ffff:`, the prefix of an IPv4 address mapped into IPv6.
pub open spec fn ipv4_mapped_prefix() -> Seq<char> {
    seq![':', ':', 'f', 'f', 'f', 'f', ':']
}

/// Whether the address text `ip`, once trimmed, names a loopback or
/// unspecified address: `127.x.x.x`, `0.0.0.0`, `::`, `::1`, or
/// `::ffff:127.x.x.x`.
pub open spec fn is_loopback_text(ip: Seq<char>) -> bool {
    let t = trim(ip);
    ||| has_prefix(t, ipv4_loopback_prefix())
    ||| t == seq!['0', '.', '0', '.', '0', '.', '0']
    ||| t == seq![':', ':']
    ||| t == seq![':', ':', '1']
    ||| (has_prefix(t, ipv4_mapped_prefix()) && has_prefix(
        t.skip(ipv4_mapped_prefix().len() as int),
        ipv4_loopback_prefix(),
    ))
}

/// Detects a loopback address by its range alone, without a table of known
/// addresses: 127.x.x.x, ::1, ::, 0.0.0.0 and IPv4 addresses mapped into IPv6.
/// Surrounding whitespace is ignored.
pub fn is_loopback_ip(ip: &str) -> (r: bool)
    ensures
        r == is_loopback_text(ip@),
{
    let t = trimmed_chars(ip);
    let loopback_prefix = vec!['1', '2', '7', '.'];
    assert(loopback_prefix@ == ipv4_loopback_prefix());
    assert(t@.skip(0) =~= t@);
    if chars_match_at(&t, 0, &loopback_prefix) {
        return true;
    }
    let unspecified4 = vec!['0', '.', '0', '.', '0', '.', '0'];
    let unspecified6 = vec![':', ':'];
    let loopback6 = vec![':', ':', '1'];
    if chars_equal(&t, &unspecified4) || chars_equal(&t, &unspecified6) || chars_equal(
        &t,
        &loopback6,
    ) {
        assert(unspecified4@ == seq!['0', '.', '0', '.', '0', '.', '0']);
        assert(unspecified6@ == seq![':', ':']);
        assert(loopback6@ == seq![':', ':', '1']);
        return true;
    }
    assert(unspecified4@ =~= seq!['0', '.', '0', '.', '0', '.', '0']);
    assert(unspecified6@ =~= seq![':', ':']);
    assert(loopback6@ =~= seq![':', ':', '1']);
    let mapped_prefix = vec![':', ':', 'f', 'f', 'f', 'f', ':'];
    assert(mapped_prefix@ == ipv4_mapped_prefix());
    if chars_match_at(&t, 0, &mapped_prefix) {
        let r = chars_match_at(&t, 7, &loopback_prefix);
        return r;
    }
    false
}

/// An address written as IPv4 (its trimmed text starts with a decimal digit)
/// is a loopback or unspecified one exactly when it lies in `127.0.0.0/8` or
/// is `0.0.0.0`: every other IPv4 address, private ones included, is an
/// ordinary address.
pub proof fn law_ipv4_loopback_range(ip: Seq<char>)
    requires
        trim(ip).len() > 0,
        '0' <= trim(ip)[0] <= '9',
    ensures
        is_loopback_text(ip) == (has_prefix(trim(ip), seq!['1', '2', '7', '.']) || trim(ip) == seq![
            '0',
            '.',
            '0',
            '.',
            '0',
            '.',
            '0',
        ]),
{
    let t = trim(ip);
    if t == seq![':', ':'] || t == seq![':', ':', '1'] {
        assert(t[0] == ':');
    }
    if has_prefix(t, ipv4_mapped_prefix()) {
        assert(t.take(7)[0] == t[0]);
        assert(t[0] == ':');
    }
}

/// Whatever follows `127.` (without whitespace), the address is a loopback
/// one; likewise an IPv4 loopback address mapped into IPv6.
pub proof fn law_loopback_prefixes(rest: Seq<char>)
    requires
        forall|i: int| 0 <= i < rest.len() ==> !is_white_space(#[trigger] rest[i]),
    ensures
        is_loopback_text(seq!['1', '2', '7', '.'] + rest),
        is_loopback_text(seq![':', ':', 'f', 'f', 'f', 'f', ':', '1', '2', '7', '.'] + rest),
{
    let a = seq!['1', '2', '7', '.'] + rest;
    let b = seq![':', ':', 'f', 'f', 'f', 'f', ':', '1', '2', '7', '.'] + rest;
    lemma_no_white_ends(a);
    lemma_no_white_ends(b);
    assert(a.take(4) =~= ipv4_loopback_prefix());
    assert(b.take(7) =~= ipv4_mapped_prefix());
    assert(b.skip(7).take(4) =~= ipv4_loopback_prefix());
}

/// Text that neither starts nor ends with whitespace is its own trim.
proof fn lemma_no_white_ends(s: Seq<char>)
    requires
        s.len() > 0,
        !is_white_space(s[0]),
        !is_white_space(s.last()),
    ensures
        trim(s) == s,
{
    assert(trim_start(s) == s);
    assert(trim_end(s) == s);
}

} // verus!
