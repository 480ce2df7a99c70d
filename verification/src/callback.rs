//! The sign-in callback the OS hands to the agent: a URL of the form
//! `mdflare://callback?username=…&token=…`.  This module owns the grammar:
//! the fixed scheme and host, `&`-separated query pairs split at the first
//! `=`, values decoded with `+` as space and `%XX` as a byte, bytes read as
//! UTF-8.  A pair whose decoded bytes are not valid UTF-8 is dropped; a
//! repeated key keeps its last value.  Registering the URL scheme with the
//! OS and restarting the agent happen outside.

use vstd::prelude::*;

use crate::config::{Config, StorageMode};
use crate::strutil::{has_prefix, push_char, str_eq, str_starts_with};
use vstd::utf8::{decode_utf8, encode_scalar, valid_utf8};

verus! {

/// A hex digit of either case.
pub open spec fn is_hex_digit(c: char) -> bool {
    ('0' <= c && c <= '9') || ('a' <= c && c <= 'f') || ('A' <= c && c <= 'F')
}

/// The value of a hex digit.
pub open spec fn hex_value(c: char) -> nat {
    if '0' <= c && c <= '9' {
        ((c as int) - ('0' as int)) as nat
    } else if 'a' <= c && c <= 'f' {
        ((c as int) - ('a' as int) + 10) as nat
    } else if 'A' <= c && c <= 'F' {
        ((c as int) - ('A' as int) + 10) as nat
    } else {
        0
    }
}

/// The bytes a query component decodes to: `%XX` with two hex digits is one
/// byte, `+` is a space, anything else contributes its UTF-8 bytes.
pub open spec fn spec_pct_bytes(s: Seq<char>) -> Seq<u8>
    decreases s.len(),
{
    if s.len() == 0 {
        Seq::<u8>::empty()
    } else if s[0] == '%' && s.len() >= 3 && is_hex_digit(s[1]) && is_hex_digit(s[2]) {
        seq![(hex_value(s[1]) * 16 + hex_value(s[2])) as u8] + spec_pct_bytes(s.skip(3))
    } else if s[0] == '+' {
        seq![0x20u8] + spec_pct_bytes(s.drop_first())
    } else {
        encode_scalar(s[0] as u32) + spec_pct_bytes(s.drop_first())
    }
}

/// A decoded query component: the percent-decoded bytes read as UTF-8,
/// `None` when they are not valid UTF-8.
pub open spec fn spec_component_decoded(s: Seq<char>) -> Option<Seq<char>> {
    if valid_utf8(spec_pct_bytes(s)) {
        Some(decode_utf8(spec_pct_bytes(s)))
    } else {
        None
    }
}

/// A query part split at its first `=`: the key, and the value (empty when
/// there is no `=`).
pub open spec fn spec_split_eq(p: Seq<char>) -> (Seq<char>, Seq<char>)
    decreases p.len(),
{
    if p.len() == 0 {
        (Seq::<char>::empty(), Seq::<char>::empty())
    } else if p[0] == '=' {
        (Seq::<char>::empty(), p.drop_first())
    } else {
        let r = spec_split_eq(p.drop_first());
        (seq![p[0]] + r.0, r.1)
    }
}

/// The `&`-separated parts of a query.
pub open spec fn spec_split_amp(s: Seq<char>) -> Seq<Seq<char>>
    decreases s.len(),
{
    if s.len() == 0 {
        seq![Seq::<char>::empty()]
    } else {
        let rest = spec_split_amp(s.drop_last());
        if s.last() == '&' {
            rest.push(Seq::<char>::empty())
        } else {
            rest.update(rest.len() - 1, rest.last().push(s.last()))
        }
    }
}

/// The decoded pairs of a query, in order; a part that does not decode is
/// dropped.
pub open spec fn spec_query_pairs(parts: Seq<Seq<char>>) -> Seq<(Seq<char>, Seq<char>)>
    decreases parts.len(),
{
    if parts.len() == 0 {
        Seq::<(Seq<char>, Seq<char>)>::empty()
    } else {
        let kv = spec_split_eq(parts[0]);
        let rest = spec_query_pairs(parts.drop_first());
        match (spec_component_decoded(kv.0), spec_component_decoded(kv.1)) {
            (Some(k), Some(v)) => seq![(k, v)] + rest,
            _ => rest,
        }
    }
}

/// The last value under `key`, as a repeated parameter overrides an earlier
/// one.
pub open spec fn spec_lookup(pairs: Seq<(Seq<char>, Seq<char>)>, key: Seq<char>) -> Option<
    Seq<char>,
>
    decreases pairs.len(),
{
    if pairs.len() == 0 {
        None
    } else if pairs.last().0 == key {
        Some(pairs.last().1)
    } else {
        spec_lookup(pairs.drop_last(), key)
    }
}

/// The `(username, token)` a callback URL carries: the URL must read
/// `mdflare://callback`, bare or followed by `?` and a query holding both
/// parameters.
pub open spec fn spec_parse_callback(u: Seq<char>) -> Option<(Seq<char>, Seq<char>)> {
    if u == "mdflare://callback"@ {
        None
    } else if has_prefix(u, "mdflare://callback?"@) {
        let pairs = spec_query_pairs(spec_split_amp(u.skip(19)));
        match (spec_lookup(pairs, "username"@), spec_lookup(pairs, "token"@)) {
            (Some(user), Some(token)) => Some((user, token)),
            _ => None,
        }
    } else {
        None
    }
}

fn hex_digit_value(c: char) -> (r: Option<u8>)
    ensures
        r is Some <==> is_hex_digit(c),
        r matches Some(v) ==> v as nat == hex_value(c),
{
    if '0' <= c && c <= '9' {
        Some(((c as u32) - ('0' as u32)) as u8)
    } else if 'a' <= c && c <= 'f' {
        Some(((c as u32) - ('a' as u32) + 10) as u8)
    } else if 'A' <= c && c <= 'F' {
        Some(((c as u32) - ('A' as u32) + 10) as u8)
    } else {
        None
    }
}

/// Appends the UTF-8 encoding of one character.
fn push_scalar_bytes(out: &mut Vec<u8>, c: char)
    ensures
        final(out)@ == old(out)@ + encode_scalar(c as u32),
{
    let v = c as u32;
    if v < 0x80 {
        out.push(0xffu8 & #[verifier::truncate] ((v & 0x7F) as u8));
        proof {
            assert(0xffu8 & ((v & 0x7F) as u8) == (v & 0x7F) as u8) by (bit_vector);
            assert(out@ =~= old(out)@ + encode_scalar(c as u32));
        }
    } else if v < 0x800 {
        out.push(0xC0u8 | #[verifier::truncate] (((v >> 6) & 0x1F) as u8));
        out.push(0x80u8 | #[verifier::truncate] ((v & 0x3F) as u8));
        proof {
            assert(out@ =~= old(out)@ + encode_scalar(c as u32));
        }
    } else if v < 0x10000 {
        out.push(0xE0u8 | #[verifier::truncate] (((v >> 12) & 0x0F) as u8));
        out.push(0x80u8 | #[verifier::truncate] (((v >> 6) & 0x3F) as u8));
        out.push(0x80u8 | #[verifier::truncate] ((v & 0x3F) as u8));
        proof {
            assert(out@ =~= old(out)@ + encode_scalar(c as u32));
        }
    } else {
        out.push(0xF0u8 | #[verifier::truncate] (((v >> 18) & 0x7) as u8));
        out.push(0x80u8 | #[verifier::truncate] (((v >> 12) & 0x3F) as u8));
        out.push(0x80u8 | #[verifier::truncate] (((v >> 6) & 0x3F) as u8));
        out.push(0x80u8 | #[verifier::truncate] ((v & 0x3F) as u8));
        proof {
            assert(out@ =~= old(out)@ + encode_scalar(c as u32));
        }
    }
}

/// Percent-decodes a query component to bytes.
fn pct_bytes(s: &str) -> (r: Vec<u8>)
    ensures
        r@ == spec_pct_bytes(s@),
{
    let len = s.unicode_len();
    let mut out: Vec<u8> = Vec::new();
    let mut i: usize = 0;
    proof {
        assert(s@.skip(0) =~= s@);
    }
    while i < len
        invariant
            len == s@.len(),
            0 <= i <= len,
            spec_pct_bytes(s@) == out@ + spec_pct_bytes(s@.skip(i as int)),
        decreases len - i,
    {
        let ghost cur = s@.skip(i as int);
        proof {
            assert(cur[0] == s@[i as int]);
            assert(cur.drop_first() =~= s@.skip(i + 1));
        }
        let c = s.get_char(i);
        let ghost out0 = out@;
        if c == '%' && len - i > 2 {
            let h1 = hex_digit_value(s.get_char(i + 1));
            let h2 = hex_digit_value(s.get_char(i + 2));
            match (h1, h2) {
                (Some(a), Some(b)) => {
                    proof {
                        assert(cur.len() >= 3);
                        assert(cur[1] == s@[i + 1]);
                        assert(cur[2] == s@[i + 2]);
                        assert(cur.skip(3) =~= s@.skip(i + 3));
                    }
                    out.push(a * 16 + b);
                    proof {
                        assert(out@ =~= out0 + seq![(hex_value(cur[1]) * 16 + hex_value(
                            cur[2])) as u8]);
                        assert(out0 + (seq![(hex_value(cur[1]) * 16 + hex_value(cur[2])) as u8]
                            + spec_pct_bytes(s@.skip(i + 3))) =~= out@ + spec_pct_bytes(s@.skip(i
                            + 3)));
                    }
                    i = i + 3;
                },
                _ => {
                    proof {
                        assert(!(cur[0] == '%' && cur.len() >= 3 && is_hex_digit(cur[1])
                            && is_hex_digit(cur[2])));
                        assert('%' as u32 == 0x25);
                        assert((0x25u32 & 0x7F) as u8 == 0x25u8) by (bit_vector);
                        assert(encode_scalar('%' as u32) =~= seq![0x25u8]);
                    }
                    out.push(0x25);
                    proof {
                        assert(out0 + (encode_scalar(cur[0] as u32) + spec_pct_bytes(s@.skip(i
                            + 1))) =~= out@ + spec_pct_bytes(s@.skip(i + 1)));
                    }
                    i = i + 1;
                },
            }
        } else if c == '+' {
            out.push(0x20);
            proof {
                assert(out@ =~= out0 + seq![0x20u8]);
                if cur[0] == '%' && cur.len() >= 3 && is_hex_digit(cur[1]) && is_hex_digit(
                    cur[2],
                ) {
                    assert(false);
                }
                assert(out0 + (seq![0x20u8] + spec_pct_bytes(s@.skip(i + 1))) =~= out@
                    + spec_pct_bytes(s@.skip(i + 1)));
            }
            i = i + 1;
        } else {
            proof {
                if cur[0] == '%' && cur.len() >= 3 && is_hex_digit(cur[1]) && is_hex_digit(
                    cur[2],
                ) {
                    assert(i + 2 < len);
                }
            }
            push_scalar_bytes(&mut out, c);
            proof {
                assert(out0 + (encode_scalar(cur[0] as u32) + spec_pct_bytes(s@.skip(i + 1)))
                    =~= out@ + spec_pct_bytes(s@.skip(i + 1)));
            }
            i = i + 1;
        }
    }
    proof {
        assert(spec_pct_bytes(s@.skip(len as int)).len() == 0);
        assert(out@ + spec_pct_bytes(s@.skip(len as int)) =~= out@);
    }
    out
}

/// Reads bytes as UTF-8.
///
/// Relies on `String::from_utf8`: it succeeds exactly on valid UTF-8, and
/// the returned string's characters encode back to the given bytes.
#[verifier::external_body]
fn bytes_to_string(b: Vec<u8>) -> (r: Option<String>)
    ensures
        r is Some <==> valid_utf8(b@),
        r matches Some(s) ==> s@ == decode_utf8(b@),
{
    String::from_utf8(b).ok()
}

/// Decodes one query component: percent-decoded bytes read as UTF-8.
fn decode_component(s: &str) -> (r: Option<String>)
    ensures
        r is Some <==> spec_component_decoded(s@) is Some,
        r matches Some(d) ==> Some(d@) == spec_component_decoded(s@),
{
    let bytes = pct_bytes(s);
    bytes_to_string(bytes)
}

/// Splits a query part at its first `=`.
fn split_eq(p: &str) -> (r: (String, String))
    ensures
        (r.0@, r.1@) == spec_split_eq(p@),
{
    let len = p.unicode_len();
    let mut i: usize = 0;
    while i < len && p.get_char(i) != '='
        invariant
            len == p@.len(),
            0 <= i <= len,
            forall|j: int| 0 <= j < i ==> p@[j] != '=',
        decreases len - i,
    {
        i = i + 1;
    }
    proof {
        lemma_split_eq_at(p@, i as int);
    }
    if i == len {
        (crate::strutil::str_copy(p), String::new())
    } else {
        let key = crate::strutil::str_copy(p.substring_char(0, i));
        let val = crate::strutil::str_copy(p.substring_char(i + 1, len));
        proof {
            assert(key@ =~= p@.take(i as int));
            assert(val@ =~= p@.skip(i + 1));
        }
        (key, val)
    }
}

proof fn lemma_split_eq_at(p: Seq<char>, i: int)
    requires
        0 <= i <= p.len(),
        forall|j: int| 0 <= j < i ==> p[j] != '=',
        i < p.len() ==> p[i] == '=',
    ensures
        spec_split_eq(p) == if i == p.len() {
            (p, Seq::<char>::empty())
        } else {
            (p.take(i), p.skip(i + 1))
        },
    decreases p.len(),
{
    if p.len() == 0 {
    } else if i == 0 {
        assert(p.take(0) =~= Seq::<char>::empty());
        assert(p.skip(1) =~= p.drop_first());
    } else {
        if i < p.len() {
            assert(p.drop_first()[i - 1] == p[i]);
        }
        assert(forall|j: int| 0 <= j < i - 1 ==> #[trigger] p.drop_first()[j] != '=');
        lemma_split_eq_at(p.drop_first(), i - 1);
        if i == p.len() {
            assert(seq![p[0]] + p.drop_first() =~= p);
        } else {
            assert(seq![p[0]] + p.drop_first().take(i - 1) =~= p.take(i));
            assert(p.drop_first().skip(i) =~= p.skip(i + 1));
        }
    }
}

/// Splits a query on `&`.
fn split_amp(s: &str) -> (r: Vec<String>)
    ensures
        r@.map_values(|p: String| p@) == spec_split_amp(s@),
{
    let len = s.unicode_len();
    let mut out: Vec<String> = Vec::new();
    let mut cur = String::new();
    let mut i: usize = 0;
    while i < len
        invariant
            len == s@.len(),
            0 <= i <= len,
            out@.map_values(|p: String| p@).push(cur@) =~= spec_split_amp(
                s@.subrange(0, i as int),
            ),
        decreases len - i,
    {
        let c = s.get_char(i);
        proof {
            assert(s@.subrange(0, i + 1).drop_last() =~= s@.subrange(0, i as int));
            assert(s@.subrange(0, i + 1).last() == s@[i as int]);
            lemma_split_amp_len(s@.subrange(0, i as int));
        }
        if c == '&' {
            out.push(cur);
            cur = String::new();
            proof {
                assert(out@.map_values(|p: String| p@).push(cur@) =~= spec_split_amp(
                    s@.subrange(0, i as int)).push(Seq::<char>::empty()));
            }
        } else {
            push_char(&mut cur, c);
            proof {
                let prev = spec_split_amp(s@.subrange(0, i as int));
                assert(prev.last() == cur@.drop_last());
                assert(cur@.drop_last().push(c) =~= cur@);
                assert(out@.map_values(|p: String| p@).push(cur@) =~= prev.update(prev.len() - 1,
                    prev.last().push(c)));
            }
        }
        i = i + 1;
    }
    out.push(cur);
    proof {
        assert(s@.subrange(0, len as int) =~= s@);
        assert(out@.map_values(|p: String| p@) =~= out@.drop_last().map_values(
            |p: String| p@).push(cur@));
    }
    out
}

proof fn lemma_split_amp_len(s: Seq<char>)
    ensures
        spec_split_amp(s).len() >= 1,
    decreases s.len(),
{
    if s.len() > 0 {
        lemma_split_amp_len(s.drop_last());
    }
}

/// Parses a sign-in callback URL into `(username, token)`.  Exactly the
/// URLs of the grammar above yield `Some`.
pub fn parse_oauth_callback(url_str: &str) -> (r: Option<(String, String)>)
    ensures
        r is Some <==> spec_parse_callback(url_str@) is Some,
        r matches Some(p) ==> Some((p.0@, p.1@)) == spec_parse_callback(url_str@),
{
    if str_eq(url_str, "mdflare://callback") {
        return None;
    }
    if !str_starts_with(url_str, "mdflare://callback?") {
        return None;
    }
    proof {
        reveal_strlit("mdflare://callback?");
        assert(url_str@.len() >= 19);
    }
    let query = url_str.substring_char(19, url_str.unicode_len());
    proof {
        assert(query@ =~= url_str@.skip(19));
    }
    let parts = split_amp(query);
    let ghost pviews = parts@.map_values(|p: String| p@);
    let mut pairs: Vec<(String, String)> = Vec::new();
    let mut i: usize = 0;
    proof {
        assert(pviews.skip(0) =~= pviews);
        assert(pair_views(pairs@) =~= Seq::<(Seq<char>, Seq<char>)>::empty());
    }
    while i < parts.len()
        invariant
            0 <= i <= parts@.len(),
            pviews == parts@.map_values(|p: String| p@),
            pviews.len() == parts@.len(),
            spec_query_pairs(pviews) == pair_views(pairs@) + spec_query_pairs(
                pviews.skip(i as int),
            ),
        decreases parts@.len() - i,
    {
        proof {
            assert(pviews.skip(i as int)[0] == pviews[i as int]);
            assert(pviews.skip(i as int).drop_first() =~= pviews.skip(i + 1));
            assert(parts@[i as int]@ == pviews[i as int]);
        }
        let (key, val) = split_eq(parts[i].as_str());
        let dk = decode_component(key.as_str());
        let dv = decode_component(val.as_str());
        let ghost pairs0 = pairs@;
        match (dk, dv) {
            (Some(k), Some(v)) => {
                pairs.push((k, v));
                proof {
                    let kv = spec_split_eq(pviews[i as int]);
                    let e = (spec_component_decoded(kv.0)->Some_0, spec_component_decoded(
                        kv.1)->Some_0);
                    assert(pair_views(pairs@) =~= pair_views(pairs0).push(e));
                    assert(pair_views(pairs0).push(e) + spec_query_pairs(pviews.skip(i + 1))
                        =~= pair_views(pairs0) + (seq![e] + spec_query_pairs(pviews.skip(i + 1))));
                }
            },
            _ => {},
        }
        i = i + 1;
    }
    proof {
        assert(spec_query_pairs(pviews.skip(pviews.len() as int)).len() == 0);
        assert(pair_views(pairs@) + spec_query_pairs(pviews.skip(pviews.len() as int))
            =~= pair_views(pairs@));
    }
    let user = lookup_last(&pairs, "username");
    let token = lookup_last(&pairs, "token");
    match (user, token) {
        (Some(u), Some(t)) => Some((u, t)),
        _ => None,
    }
}

/// The views of a decoded pair list.
pub open spec fn pair_views(ps: Seq<(String, String)>) -> Seq<(Seq<char>, Seq<char>)> {
    ps.map_values(|p: (String, String)| (p.0@, p.1@))
}

fn lookup_last(pairs: &Vec<(String, String)>, key: &str) -> (r: Option<String>)
    ensures
        r is Some <==> spec_lookup(pair_views(pairs@), key@) is Some,
        r matches Some(v) ==> Some(v@) == spec_lookup(pair_views(pairs@), key@),
{
    let mut i: usize = pairs.len();
    proof {
        assert(pair_views(pairs@).take(pairs@.len() as int) =~= pair_views(pairs@));
    }
    while i > 0
        invariant
            0 <= i <= pairs@.len(),
            spec_lookup(pair_views(pairs@), key@) == spec_lookup(
                pair_views(pairs@).take(i as int),
                key@,
            ),
        decreases i,
    {
        i = i - 1;
        proof {
            let cur = pair_views(pairs@).take(i + 1);
            assert(cur.last() == pair_views(pairs@)[i as int]);
            assert(cur.drop_last() =~= pair_views(pairs@).take(i as int));
            assert(pair_views(pairs@)[i as int].0 == pairs@[i as int].0@);
        }
        if str_eq(pairs[i].0.as_str(), key) {
            proof {
                assert(pair_views(pairs@).take(i + 1).last().1 == pairs@[i as int].1@);
            }
            return Some(pairs[i].1.clone());
        }
    }
    proof {
        assert(pair_views(pairs@).take(0).len() == 0);
    }
    None
}

/// Folds a parsed callback into the configuration: cloud mode with the new
/// account, the root defaulted when it was empty.  A token already on disk
/// makes the callback a no-op, so delivering it twice changes nothing.
pub fn callback_update(config: &Config, username: &str, token: &str, default_dir: &str) -> (r:
    Option<Config>)
    ensures
        r is Some <==> config.api_token@ != token@,
        r matches Some(c) ==> {
            &&& c.storage_mode == StorageMode::Cloud
            &&& c.username@ == username@
            &&& c.api_token@ == token@
            &&& c.local_path@ == if config.local_path@.len() == 0 {
                default_dir@
            } else {
                config.local_path@
            }
            &&& c.api_base@ == config.api_base@
            &&& c.server_port == config.server_port
            &&& c.server_token@ == config.server_token@
        },
{
    if str_eq(config.api_token.as_str(), token) {
        return None;
    }
    let local_path = if config.local_path.as_str().is_empty() {
        crate::strutil::str_copy(default_dir)
    } else {
        config.local_path.clone()
    };
    Some(
        Config {
            storage_mode: StorageMode::Cloud,
            local_path,
            api_base: config.api_base.clone(),
            username: crate::strutil::str_copy(username),
            api_token: crate::strutil::str_copy(token),
            server_port: config.server_port,
            server_token: config.server_token.clone(),
        },
    )
}

/// Registers the agent's URL scheme with the host.  On hosts without a
/// scheme registry there is nothing to register.
pub fn register_url_scheme() {
}

} // verus!
