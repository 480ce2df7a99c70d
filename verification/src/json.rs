//! The JSON the agent writes on the wire: a diff script as an array of
//! operations, and the body of a file upload.  The exact bytes matter twice:
//! the remote peer decodes them, and the upload path measures the serialized
//! diff against its size cap.  String escaping follows the compact JSON form:
//! `"` and `\` are escaped, control characters become `\b \t \n \f \r` or
//! `\u00XX` with lowercase hex digits, and everything else passes through.

use vstd::prelude::*;

use crate::diff::DiffOp;
use crate::fingerprint::{radix_digits, spec_digit_char, spec_radix_digits};
use crate::strutil::push_char;

verus! {

/// The escape of one character inside a JSON string.
pub open spec fn spec_escape_char(c: char) -> Seq<char> {
    if c == '"' {
        seq!['\\', '"']
    } else if c == '\\' {
        seq!['\\', '\\']
    } else if c == '\u{8}' {
        seq!['\\', 'b']
    } else if c == '\u{9}' {
        seq!['\\', 't']
    } else if c == '\u{a}' {
        seq!['\\', 'n']
    } else if c == '\u{c}' {
        seq!['\\', 'f']
    } else if c == '\u{d}' {
        seq!['\\', 'r']
    } else if (c as nat) < 0x20 {
        seq!['\\', 'u', '0', '0', spec_digit_char((c as nat) / 16), spec_digit_char(
            (c as nat) % 16)]
    } else {
        seq![c]
    }
}

/// The escaped body of a JSON string.
pub open spec fn spec_escape_string(s: Seq<char>) -> Seq<char>
    decreases s.len(),
{
    if s.len() == 0 {
        Seq::<char>::empty()
    } else {
        spec_escape_string(s.drop_last()) + spec_escape_char(s.last())
    }
}

/// A JSON string with its quotes.
pub open spec fn spec_json_string(s: Seq<char>) -> Seq<char> {
    seq!['"'] + spec_escape_string(s) + seq!['"']
}

/// A non-negative number in decimal.
pub open spec fn spec_dec(n: nat) -> Seq<char> {
    if n == 0 {
        seq!['0']
    } else {
        spec_radix_digits(n, 10)
    }
}

/// One diff operation as JSON.
pub open spec fn spec_diff_op_json(op: DiffOp) -> Seq<char> {
    match op {
        DiffOp::Keep(n) => "{\"eq\":"@ + spec_dec(n as nat) + seq!['}'],
        DiffOp::Del(n) => "{\"del\":"@ + spec_dec(n as nat) + seq!['}'],
        DiffOp::Ins(xs) => "{\"ins\":["@ + spec_comma_strings(xs@.map_values(|l: String| l@))
            + seq![']', '}'],
    }
}

/// JSON strings joined by commas.
pub open spec fn spec_comma_strings(ls: Seq<Seq<char>>) -> Seq<char>
    decreases ls.len(),
{
    if ls.len() == 0 {
        Seq::<char>::empty()
    } else if ls.len() == 1 {
        spec_json_string(ls[0])
    } else {
        spec_comma_strings(ls.drop_last()) + seq![','] + spec_json_string(ls.last())
    }
}

/// A whole diff script as JSON: the operations in order, in one array.
pub open spec fn spec_diff_json(ops: Seq<DiffOp>) -> Seq<char>
    decreases ops.len(),
{
    seq!['['] + spec_diff_json_items(ops) + seq![']']
}

/// The comma-joined operations of a script.
pub open spec fn spec_diff_json_items(ops: Seq<DiffOp>) -> Seq<char>
    decreases ops.len(),
{
    if ops.len() == 0 {
        Seq::<char>::empty()
    } else if ops.len() == 1 {
        spec_diff_op_json(ops[0])
    } else {
        spec_diff_json_items(ops.drop_last()) + seq![','] + spec_diff_op_json(ops.last())
    }
}

/// Appends the escaped body of `s` to `out`.
fn append_escaped(out: &mut String, s: &str)
    ensures
        final(out)@ == old(out)@ + spec_escape_string(s@),
{
    let len = s.unicode_len();
    let mut i: usize = 0;
    proof {
        assert(old(out)@ + spec_escape_string(s@.subrange(0, 0)) =~= old(out)@);
    }
    while i < len
        invariant
            len == s@.len(),
            0 <= i <= len,
            out@ == old(out)@ + spec_escape_string(s@.subrange(0, i as int)),
        decreases len - i,
    {
        let c = s.get_char(i);
        proof {
            assert(s@.subrange(0, i + 1).drop_last() =~= s@.subrange(0, i as int));
            assert(s@.subrange(0, i + 1).last() == s@[i as int]);
        }
        let ghost mid = out@;
        if c == '"' {
            out.append("\\\"");
            proof {
                assert(out@ =~= mid + seq!['\\', '"']) by {
                    reveal_strlit("\\\"");
                }
            }
        } else if c == '\\' {
            out.append("\\\\");
            proof {
                assert(out@ =~= mid + seq!['\\', '\\']) by {
                    reveal_strlit("\\\\");
                }
            }
        } else if c == '\u{8}' {
            out.append("\\b");
            proof {
                assert(out@ =~= mid + seq!['\\', 'b']) by {
                    reveal_strlit("\\b");
                }
            }
        } else if c == '\u{9}' {
            out.append("\\t");
            proof {
                assert(out@ =~= mid + seq!['\\', 't']) by {
                    reveal_strlit("\\t");
                }
            }
        } else if c == '\u{a}' {
            out.append("\\n");
            proof {
                assert(out@ =~= mid + seq!['\\', 'n']) by {
                    reveal_strlit("\\n");
                }
            }
        } else if c == '\u{c}' {
            out.append("\\f");
            proof {
                assert(out@ =~= mid + seq!['\\', 'f']) by {
                    reveal_strlit("\\f");
                }
            }
        } else if c == '\u{d}' {
            out.append("\\r");
            proof {
                assert(out@ =~= mid + seq!['\\', 'r']) by {
                    reveal_strlit("\\r");
                }
            }
        } else if (c as u32) < 0x20 {
            out.append("\\u00");
            let v = c as u32;
            let hi: u8 = (v / 16) as u8;
            let lo: u8 = (v % 16) as u8;
            push_char(out, hex_digit(hi));
            push_char(out, hex_digit(lo));
            proof {
                assert(out@ =~= mid + seq!['\\', 'u', '0', '0', spec_digit_char((c as nat) / 16),
                    spec_digit_char((c as nat) % 16)]) by {
                    reveal_strlit("\\u00");
                }
            }
        } else {
            push_char(out, c);
            proof {
                assert(out@ =~= mid + seq![c]);
            }
        }
        proof {
            assert(out@ =~= old(out)@ + spec_escape_string(s@.subrange(0, i + 1)));
        }
        i = i + 1;
    }
    proof {
        assert(s@.subrange(0, len as int) =~= s@);
    }
}

/// The lowercase hex digit for `d`, which must be below 16.
fn hex_digit(d: u8) -> (c: char)
    requires
        d < 16,
    ensures
        c == spec_digit_char(d as nat),
{
    if d < 10 {
        (48 + d) as char
    } else {
        (87 + d) as char
    }
}

/// Appends `s` as a quoted, escaped JSON string.
pub fn append_json_string(out: &mut String, s: &str)
    ensures
        final(out)@ == old(out)@ + spec_json_string(s@),
{
    push_char(out, '"');
    append_escaped(out, s);
    push_char(out, '"');
    proof {
        assert(final(out)@ =~= old(out)@ + spec_json_string(s@));
    }
}

/// Appends `n` in decimal.
fn append_dec(out: &mut String, n: usize)
    ensures
        final(out)@ == old(out)@ + spec_dec(n as nat),
{
    if n == 0 {
        push_char(out, '0');
        proof {
            assert(final(out)@ =~= old(out)@ + seq!['0']);
        }
    } else {
        let digits = radix_digits(n as u64, 10);
        out.append(digits.as_str());
    }
}

/// Serializes a diff script to its wire form, one array of operations.
pub fn diff_to_json(ops: &Vec<DiffOp>) -> (r: String)
    ensures
        r@ == spec_diff_json(ops@),
{
    let mut out = String::new();
    push_char(&mut out, '[');
    let mut i: usize = 0;
    proof {
        assert(out@ =~= seq!['[']);
        assert(out@ =~= seq!['['] + spec_diff_json_items(ops@.subrange(0, 0)));
    }
    while i < ops.len()
        invariant
            0 <= i <= ops@.len(),
            out@ == seq!['['] + spec_diff_json_items(ops@.subrange(0, i as int)),
        decreases ops@.len() - i,
    {
        proof {
            assert(ops@.subrange(0, i + 1).drop_last() =~= ops@.subrange(0, i as int));
            assert(ops@.subrange(0, i + 1).last() == ops@[i as int]);
        }
        if i > 0 {
            push_char(&mut out, ',');
        }
        let ghost mid = out@;
        match &ops[i] {
            DiffOp::Keep(n) => {
                out.append("{\"eq\":");
                append_dec(&mut out, *n);
                push_char(&mut out, '}');
                proof {
                    assert(out@ =~= mid + spec_diff_op_json(ops@[i as int]));
                }
            },
            DiffOp::Del(n) => {
                out.append("{\"del\":");
                append_dec(&mut out, *n);
                push_char(&mut out, '}');
                proof {
                    assert(out@ =~= mid + spec_diff_op_json(ops@[i as int]));
                }
            },
            DiffOp::Ins(xs) => {
                out.append("{\"ins\":[");
                let mut j: usize = 0;
                let ghost ins0 = out@;
                let ghost lviews = xs@.map_values(|l: String| l@);
                proof {
                    assert(lviews.subrange(0, 0) =~= Seq::<Seq<char>>::empty());
                    assert(ins0 + spec_comma_strings(lviews.subrange(0, 0)) =~= ins0);
                }
                while j < xs.len()
                    invariant
                        0 <= j <= xs@.len(),
                        lviews == xs@.map_values(|l: String| l@),
                        lviews.len() == xs@.len(),
                        out@ == ins0 + spec_comma_strings(lviews.subrange(0, j as int)),
                    decreases xs@.len() - j,
                {
                    proof {
                        assert(lviews.subrange(0, j + 1).drop_last() =~= lviews.subrange(0,
                            j as int));
                        assert(lviews.subrange(0, j + 1).last() == lviews[j as int]);
                    }
                    if j > 0 {
                        push_char(&mut out, ',');
                    }
                    append_json_string(&mut out, xs[j].as_str());
                    proof {
                        assert(out@ =~= ins0 + spec_comma_strings(lviews.subrange(0, j + 1)));
                    }
                    j = j + 1;
                }
                push_char(&mut out, ']');
                push_char(&mut out, '}');
                proof {
                    assert(lviews.subrange(0, lviews.len() as int) =~= lviews);
                    assert(out@ =~= mid + spec_diff_op_json(ops@[i as int]));
                }
            },
        }
        proof {
            assert(out@ =~= seq!['['] + spec_diff_json_items(ops@.subrange(0, i + 1)));
        }
        i = i + 1;
    }
    push_char(&mut out, ']');
    proof {
        assert(ops@.subrange(0, ops@.len() as int) =~= ops@);
        assert(out@ =~= spec_diff_json(ops@));
    }
    out
}

/// The JSON body of a file upload: the content, then the optional diff and
/// prior fingerprint, keys in the order the wire uses.
pub open spec fn spec_put_body(
    content: Seq<char>,
    old_hash: Option<Seq<char>>,
    diff: Option<Seq<DiffOp>>,
) -> Seq<char> {
    "{\"content\":"@ + spec_json_string(content) + (match diff {
        Some(ops) => ",\"diff\":"@ + spec_diff_json(ops),
        None => Seq::<char>::empty(),
    }) + (match old_hash {
        Some(h) => ",\"oldHash\":"@ + spec_json_string(h),
        None => Seq::<char>::empty(),
    }) + seq!['}']
}

/// Builds the body of a file upload.
pub fn put_body(content: &str, old_hash: &Option<String>, diff: &Option<Vec<DiffOp>>) -> (r:
    String)
    ensures
        r@ == spec_put_body(content@, match old_hash {
            Some(h) => Some(h@),
            None => None,
        }, match diff {
            Some(d) => Some(d@),
            None => None,
        }),
{
    let mut out = String::new();
    out.append("{\"content\":");
    append_json_string(&mut out, content);
    match diff {
        Some(ops) => {
            out.append(",\"diff\":");
            let dj = diff_to_json(ops);
            out.append(dj.as_str());
        },
        None => {},
    }
    match old_hash {
        Some(h) => {
            out.append(",\"oldHash\":");
            append_json_string(&mut out, h.as_str());
        },
        None => {},
    }
    push_char(&mut out, '}');
    proof {
        assert(out@ =~= spec_put_body(content@, match old_hash {
            Some(h) => Some(h@),
            None => None,
        }, match diff {
            Some(d) => Some(d@),
            None => None,
        }));
    }
    out
}

} // verus!
