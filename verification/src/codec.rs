//! Structured interchange encoding for [`VersionInfo`].
//!
//! A descriptor is written as a self-describing object with a single `name`
//! field, `{"name":"<label>"}`, with `"` and `\` in the label escaped by a
//! backslash. [`encode`] produces exactly that form, [`decode`] accepts
//! exactly that form, and [`lemma_round_trip`] proves that decoding an
//! encoded descriptor always gives the original name back.

use vstd::prelude::*;
use crate::VersionInfo;

verus! {

/// The escaped form of one label character: `"` and `\` get a leading
/// backslash, every other character stands for itself.
pub open spec fn escape_char(c: char) -> Seq<char> {
    if c == '"' || c == '\\' {
        seq!['\\', c]
    } else {
        seq![c]
    }
}

/// The escaped form of a whole label.
pub open spec fn escape_seq(s: Seq<char>) -> Seq<char>
    decreases s.len(),
{
    if s.len() == 0 {
        Seq::empty()
    } else {
        escape_char(s[0]) + escape_seq(s.drop_first())
    }
}

/// The characters that open the encoded object, up to and including the
/// quote that starts the label.
pub open spec fn encoding_prefix() -> Seq<char> {
    seq!['{', '"', 'n', 'a', 'm', 'e', '"', ':', '"']
}

/// The characters that close the label and the encoded object.
pub open spec fn encoding_suffix() -> Seq<char> {
    seq!['"', '}']
}

/// The encoded form of a descriptor whose name is `name`.
pub open spec fn spec_encode(name: Seq<char>) -> Seq<char> {
    encoding_prefix() + escape_seq(name) + encoding_suffix()
}

/// Prepends `p` to the contents of `t`, if any.
pub open spec fn prepend_opt(p: Seq<char>, t: Option<Seq<char>>) -> Option<Seq<char>> {
    match t {
        Some(q) => Some(p + q),
        None => None,
    }
}

/// Reads the label out of everything that follows the opening quote:
/// unescapes up to the first unescaped quote, which must be followed by
/// exactly the closing brace and the end of the input.
pub open spec fn unescape_body(s: Seq<char>) -> Option<Seq<char>>
    decreases s.len(),
{
    if s.len() == 0 {
        None
    } else if s[0] == '"' {
        if s.len() == 2 && s[1] == '}' {
            Some(Seq::empty())
        } else {
            None
        }
    } else if s[0] == '\\' {
        if s.len() >= 2 && (s[1] == '"' || s[1] == '\\') {
            prepend_opt(seq![s[1]], unescape_body(s.skip(2)))
        } else {
            None
        }
    } else {
        prepend_opt(seq![s[0]], unescape_body(s.skip(1)))
    }
}

/// The name encoded in `s`, or `None` where `s` is not the encoded form
/// of any descriptor.
pub open spec fn spec_decode(s: Seq<char>) -> Option<Seq<char>> {
    if s.len() >= encoding_prefix().len() && s.take(encoding_prefix().len() as int)
        == encoding_prefix() {
        unescape_body(s.skip(encoding_prefix().len() as int))
    } else {
        None
    }
}

/// Relies on `String::push`: it appends the given character to the end of
/// the string.
#[verifier::external_body]
fn push_char(s: &mut String, c: char)
    ensures
        final(s)@ == old(s)@.push(c),
{
    s.push(c);
}

proof fn lemma_escape_seq_push(s: Seq<char>, c: char)
    ensures
        escape_seq(s.push(c)) == escape_seq(s) + escape_char(c),
    decreases s.len(),
{
    let sp = s.push(c);
    if s.len() == 0 {
        assert(sp[0] == c);
        assert(sp.drop_first() =~= Seq::<char>::empty());
        assert(escape_seq(sp.drop_first()) =~= Seq::<char>::empty());
        assert(escape_seq(sp) =~= escape_seq(s) + escape_char(c));
    } else {
        assert(sp[0] == s[0]);
        assert(sp.drop_first() =~= s.drop_first().push(c));
        lemma_escape_seq_push(s.drop_first(), c);
        assert(escape_seq(sp) == escape_char(s[0]) + (escape_seq(s.drop_first()) + escape_char(c)));
        assert(escape_char(s[0]) + (escape_seq(s.drop_first()) + escape_char(c)) =~= (escape_char(
            s[0],
        ) + escape_seq(s.drop_first())) + escape_char(c));
    }
}

/// Encodes a descriptor into the interchange form.
pub fn encode(v: &VersionInfo) -> (r: String)
    ensures
        r@ == spec_encode(v.name@),
{
    let mut out = String::from_str("{\"name\":\"");
    proof {
        reveal_strlit("{\"name\":\"");
        assert(out@ =~= encoding_prefix());
    }
    let n = v.name.as_str().unicode_len();
    let mut i: usize = 0;
    while i < n
        invariant
            i <= n,
            n == v.name@.len(),
            out@ == encoding_prefix() + escape_seq(v.name@.take(i as int)),
        decreases n - i,
    {
        let c = v.name.as_str().get_char(i);
        if c == '"' || c == '\\' {
            push_char(&mut out, '\\');
            push_char(&mut out, c);
        } else {
            push_char(&mut out, c);
        }
        proof {
            lemma_escape_seq_push(v.name@.take(i as int), c);
            assert(v.name@.take(i as int + 1) =~= v.name@.take(i as int).push(c));
            assert(out@ =~= encoding_prefix() + escape_seq(v.name@.take(i as int + 1)));
        }
        i = i + 1;
    }
    proof {
        assert(v.name@.take(n as int) =~= v.name@);
    }
    out.append("\"}");
    proof {
        reveal_strlit("\"}");
        assert("\"}"@ =~= encoding_suffix());
        assert(out@ =~= spec_encode(v.name@));
    }
    out
}

/// Decodes the interchange form back into a descriptor. Returns `Some`
/// exactly on the strings that encode a descriptor, and then carries the
/// encoded name.
pub fn decode(s: &str) -> (r: Option<VersionInfo>)
    ensures
        (match r {
            Some(v) => spec_decode(s@) == Some(v.name@),
            None => spec_decode(s@) is None,
        }),
{
    let p = "{\"name\":\"";
    proof {
        reveal_strlit("{\"name\":\"");
        assert(p@ =~= encoding_prefix());
    }
    let n = s.unicode_len();
    if n < 9 {
        return None;
    }
    let mut i: usize = 0;
    while i < 9
        invariant
            i <= 9,
            n == s@.len(),
            n >= 9,
            p@ == encoding_prefix(),
            forall|j: int| 0 <= j < i ==> s@[j] == encoding_prefix()[j],
        decreases 9 - i,
    {
        if s.get_char(i) != p.get_char(i) {
            proof {
                assert(s@.take(encoding_prefix().len() as int)[i as int]
                    != encoding_prefix()[i as int]);
            }
            return None;
        }
        i = i + 1;
    }
    proof {
        assert(s@.take(encoding_prefix().len() as int) =~= encoding_prefix());
    }
    let mut name = String::new();
    let mut i: usize = 9;
    loop
        invariant
            9 <= i <= n,
            n == s@.len(),
            s@.take(encoding_prefix().len() as int) == encoding_prefix(),
            unescape_body(s@.skip(9)) == prepend_opt(name@, unescape_body(s@.skip(i as int))),
        decreases n - i,
    {
        if i >= n {
            proof {
                assert(s@.skip(i as int) =~= Seq::<char>::empty());
            }
            return None;
        }
        let c = s.get_char(i);
        proof {
            assert(s@.skip(i as int)[0] == s@[i as int]);
        }
        if c == '"' {
            if n - i == 2 && s.get_char(i + 1) == '}' {
                proof {
                    assert(s@.skip(i as int).len() == 2);
                    assert(s@.skip(i as int)[1] == s@[i as int + 1]);
                    assert(unescape_body(s@.skip(i as int)) == Some(Seq::<char>::empty()));
                    assert(name@ + Seq::<char>::empty() =~= name@);
                }
                return Some(VersionInfo { name });
            } else {
                proof {
                    assert(s@.skip(i as int).len() == n - i);
                    if n - i == 2 {
                        assert(s@.skip(i as int)[1] == s@[i as int + 1]);
                    }
                    assert(unescape_body(s@.skip(i as int)) is None);
                }
                return None;
            }
        } else if c == '\\' {
            if n - i >= 2 {
                let c2 = s.get_char(i + 1);
                proof {
                    assert(s@.skip(i as int)[1] == s@[i as int + 1]);
                }
                if c2 == '"' || c2 == '\\' {
                    push_char(&mut name, c2);
                    proof {
                        assert(s@.skip(i as int).skip(2) =~= s@.skip(i as int + 2));
                        lemma_prepend_opt_push(
                            name@.drop_last(),
                            c2,
                            unescape_body(s@.skip(i as int + 2)),
                        );
                        assert(name@.drop_last().push(c2) =~= name@);
                    }
                    i = i + 2;
                } else {
                    proof {
                        assert(unescape_body(s@.skip(i as int)) is None);
                    }
                    return None;
                }
            } else {
                proof {
                    assert(s@.skip(i as int).len() == 1);
                    assert(unescape_body(s@.skip(i as int)) is None);
                }
                return None;
            }
        } else {
            push_char(&mut name, c);
            proof {
                assert(s@.skip(i as int).skip(1) =~= s@.skip(i as int + 1));
                lemma_prepend_opt_push(
                    name@.drop_last(),
                    c,
                    unescape_body(s@.skip(i as int + 1)),
                );
                assert(name@.drop_last().push(c) =~= name@);
            }
            i = i + 1;
        }
    }
}

proof fn lemma_prepend_opt_push(p: Seq<char>, c: char, t: Option<Seq<char>>)
    ensures
        prepend_opt(p.push(c), t) == prepend_opt(p, prepend_opt(seq![c], t)),
{
    match t {
        Some(q) => {
            assert(p.push(c) + q =~= p + (seq![c] + q));
        },
        None => {},
    }
}

proof fn lemma_unescape_escape(name: Seq<char>)
    ensures
        unescape_body(escape_seq(name) + encoding_suffix()) == Some(name),
    decreases name.len(),
{
    let s = escape_seq(name) + encoding_suffix();
    if name.len() == 0 {
        assert(s =~= encoding_suffix());
        assert(unescape_body(s) == Some(Seq::<char>::empty()));
        assert(name =~= Seq::<char>::empty());
    } else {
        let c = name[0];
        let rest = name.drop_first();
        lemma_unescape_escape(rest);
        if c == '"' || c == '\\' {
            assert(s[0] == '\\');
            assert(s[1] == c);
            assert(s.skip(2) =~= escape_seq(rest) + encoding_suffix());
            assert(seq![c] + rest =~= name);
        } else {
            assert(s[0] == c);
            assert(s.skip(1) =~= escape_seq(rest) + encoding_suffix());
            assert(seq![c] + rest =~= name);
        }
    }
}

/// Round trip: decoding the encoded form of any name yields exactly that
/// name back.
pub proof fn lemma_round_trip(name: Seq<char>)
    ensures
        spec_decode(spec_encode(name)) == Some(name),
{
    let e = spec_encode(name);
    assert(e.take(encoding_prefix().len() as int) =~= encoding_prefix());
    assert(e.skip(encoding_prefix().len() as int) =~= escape_seq(name) + encoding_suffix());
    lemma_unescape_escape(name);
}

} // verus!
