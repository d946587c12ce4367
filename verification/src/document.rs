use vstd::prelude::*;

use crate::lru::kept;
use crate::model::{find_member, first_member, lemma_first_member, JsonValue};
use crate::ordering::{lemma_ins_at, stable_sorted, text_less, text_lt};
use crate::text::{joined, push_str, string_of};

verus! {

/// The hexadecimal digit of `n` (below 16), in lower case.
pub open spec fn hex_digit(n: int) -> char {
    seq!['0', '1', '2', '3', '4', '5', '6', '7', '8', '9', 'a', 'b', 'c', 'd', 'e', 'f'][n]
}

/// How `serde_json` writes one character inside a string: a quote and a backslash are
/// escaped with a backslash; backspace, tab, line feed, form feed and carriage return
/// get their short escapes; any other character below U+0020 becomes `\u00XX` in lower
/// case hexadecimal; every other character is written as it is.
pub open spec fn json_escape(c: char) -> Seq<char> {
    if c == '"' {
        seq!['\\', '"']
    } else if c == '\\' {
        seq!['\\', '\\']
    } else if c == '\u{8}' {
        seq!['\\', 'b']
    } else if c == '\t' {
        seq!['\\', 't']
    } else if c == '\n' {
        seq!['\\', 'n']
    } else if c == '\u{c}' {
        seq!['\\', 'f']
    } else if c == '\r' {
        seq!['\\', 'r']
    } else if (c as int) < 0x20 {
        seq!['\\', 'u', '0', '0', hex_digit((c as int) / 16), hex_digit((c as int) % 16)]
    } else {
        seq![c]
    }
}

/// The JSON text `serde_json` writes for a string: the characters, each escaped as
/// `json_escape` says, in double quotes.
pub open spec fn spec_json_quoted(s: Seq<char>) -> Seq<char> {
    seq!['"'] + s.map_values(|c: char| json_escape(c)).flatten() + seq!['"']
}

/// Writes a string as a JSON string literal.
///
/// Trusted: calls `serde_json::to_string` on the `str`, which cannot fail for it and
/// writes the text in quotes with the escapes of its escape table (`json_escape`).
#[verifier::external_body]
fn json_quote(s: &str) -> (r: String)
    ensures
        r@ == spec_json_quoted(s@),
{
    serde_json::to_string(s).unwrap_or_default()
}

/// Orders member positions by member name: `a` comes after `b`.
pub open spec fn name_after(m: Seq<(String, JsonValue)>) -> spec_fn(int, int) -> bool {
    |a: int, b: int| text_lt(m[b].0@, m[a].0@)
}

/// Whether the member at position `i` is the one that counts for its name.
pub open spec fn counts(m: Seq<(String, JsonValue)>, i: int) -> bool {
    0 <= i < m.len() && first_member(m, m[i].0@) == i
}

/// The positions of the members that count, in the order of their names (the order in
/// which `serde_json` writes the members of an object).
pub open spec fn member_order(m: Seq<(String, JsonValue)>) -> Seq<int> {
    stable_sorted(kept(Seq::new(m.len(), |i: int| i), |i: int| counts(m, i)), name_after(m))
}

/// Compact JSON text of a document: `null`, `true`, `false`, numbers as written,
/// strings quoted as `serde_json` quotes them, arrays and objects without spaces, the
/// members that count ordered by name.
pub open spec fn json_text(v: JsonValue) -> Seq<char>
    decreases v, 0int,
{
    match v {
        JsonValue::Null => "null"@,
        JsonValue::Bool(b) => if b {
            "true"@
        } else {
            "false"@
        },
        JsonValue::Number(n) => n@,
        JsonValue::Str(s) => spec_json_quoted(s@),
        JsonValue::Array(a) => "["@ + joined(element_texts(a@, a@.len() as int), ","@) + "]"@,
        JsonValue::Object(m) => "{"@ + joined(
            member_texts(m@, member_order(m@), member_order(m@).len() as int),
            ","@,
        ) + "}"@,
    }
}

/// The texts of the first `n` elements of an array.
pub open spec fn element_texts(s: Seq<JsonValue>, n: int) -> Seq<Seq<char>>
    decreases s, n,
{
    if n <= 0 || n > s.len() {
        Seq::empty()
    } else {
        element_texts(s, n - 1).push(json_text(s[n - 1]))
    }
}

/// The texts `"name":value` of the members at the first `n` positions of `order`.
pub open spec fn member_texts(m: Seq<(String, JsonValue)>, order: Seq<int>, n: int) -> Seq<Seq<char>>
    decreases m, n,
{
    if n <= 0 || n > order.len() {
        Seq::empty()
    } else {
        let p = order[n - 1];
        let here = if 0 <= p < m.len() {
            spec_json_quoted(m[p].0@) + ":"@ + json_text(m[p].1)
        } else {
            Seq::empty()
        };
        member_texts(m, order, n - 1).push(here)
    }
}

/// Positions as integers.
pub open spec fn as_ints(v: Seq<usize>) -> Seq<int> {
    v.map_values(|p: usize| p as int)
}

/// The positions of the members of an object that count, ordered by name.
fn member_positions(m: &Vec<(String, JsonValue)>) -> (r: Vec<usize>)
    ensures
        as_ints(r@) == member_order(m@),
        forall|k: int| 0 <= k < r@.len() ==> #[trigger] r@[k] < m@.len(),
{
    let ghost all = Seq::new(m@.len(), |i: int| i);
    let ghost keep = |i: int| counts(m@, i);
    let ghost gt = name_after(m@);
    let mut sorted: Vec<usize> = Vec::new();
    let mut i: usize = 0;
    while i < m.len()
        invariant
            i <= m@.len(),
            all == Seq::new(m@.len(), |i: int| i),
            keep == (|i: int| counts(m@, i)),
            gt == name_after(m@),
            as_ints(sorted@) == stable_sorted(kept(all.take(i as int), keep), gt),
            forall|k: int| 0 <= k < sorted@.len() ==> #[trigger] sorted@[k] < i,
        decreases m@.len() - i,
    {
        proof {
            crate::lru::lemma_kept_take(all, keep, i as int);
            assert(all[i as int] == i as int);
        }
        let first = find_member(m, m[i].0.as_str());
        let counted = match first {
            Some(f) => f == i,
            None => false,
        };
        proof {
            lemma_first_member(m@, m@[i as int].0@);
            assert(counted == counts(m@, i as int));
        }
        if counted {
            let ghost sv = as_ints(sorted@);
            let ghost ks = kept(all.take(i as int), keep);
            let mut j: usize = sorted.len();
            while j > 0 && text_less(m[i].0.as_str(), m[sorted[j - 1]].0.as_str())
                invariant
                    j <= sorted@.len(),
                    i < m@.len(),
                    sv == as_ints(sorted@),
                    gt == name_after(m@),
                    forall|k: int| 0 <= k < sorted@.len() ==> #[trigger] sorted@[k] < i,
                    forall|k: int| j <= k < sv.len() ==> gt(#[trigger] sv[k], i as int),
                decreases j,
            {
                proof {
                    assert(sv[j - 1] == sorted@[j - 1] as int);
                }
                j = j - 1;
            }
            proof {
                if j > 0 {
                    assert(sv[j - 1] == sorted@[j - 1] as int);
                }
                lemma_ins_at(sv, i as int, gt, j as int);
                assert(ks.push(i as int).drop_last() =~= ks);
                assert(ks.push(i as int).last() == i as int);
            }
            sorted.insert(j, i);
            proof {
                assert(as_ints(sorted@) =~= sv.insert(j as int, i as int));
            }
        }
        i = i + 1;
    }
    proof {
        assert(all.take(m@.len() as int) =~= all);
    }
    sorted
}

/// The compact JSON text of a document (see `json_text`).
pub fn render_json(v: &JsonValue) -> (r: String)
    ensures
        r@ == json_text(*v),
    decreases v,
{
    match v {
        JsonValue::Null => string_of("null"),
        JsonValue::Bool(b) => if *b {
            string_of("true")
        } else {
            string_of("false")
        },
        JsonValue::Number(n) => string_of(n.as_str()),
        JsonValue::Str(s) => json_quote(s.as_str()),
        JsonValue::Array(a) => {
            let mut body = String::new();
            let mut i: usize = 0;
            while i < a.len()
                invariant
                    *v == JsonValue::Array(*a),
                    i <= a@.len(),
                    body@ == joined(element_texts(a@, i as int), ","@),
                decreases a@.len() - i,
            {
                let ghost before = body@;
                if i > 0 {
                    push_str(&mut body, ",");
                }
                proof {
                    assert(decreases_to!(*v => (*v)->Array_0));
                    assert(decreases_to!((*v)->Array_0 => (*v)->Array_0@));
                    assert(decreases_to!(a@ => a@[i as int]));
                }
                let t = render_json(&a[i]);
                push_str(&mut body, t.as_str());
                proof {
                    let p = element_texts(a@, i + 1);
                    assert(p.drop_last() == element_texts(a@, i as int));
                    if i == 0 {
                        assert(element_texts(a@, 0) == Seq::<Seq<char>>::empty());
                        assert(p =~= seq![t@]);
                        assert(before =~= Seq::<char>::empty());
                    }
                }
                i = i + 1;
            }
            let mut out = string_of("[");
            push_str(&mut out, body.as_str());
            push_str(&mut out, "]");
            out
        },
        JsonValue::Object(m) => {
            let order = member_positions(m);
            let ghost mo = member_order(m@);
            let mut body = String::new();
            let mut k: usize = 0;
            while k < order.len()
                invariant
                    *v == JsonValue::Object(*m),
                    mo == member_order(m@),
                    k <= order@.len(),
                    as_ints(order@) == mo,
                    forall|q: int| 0 <= q < order@.len() ==> #[trigger] order@[q] < m@.len(),
                    body@ == joined(member_texts(m@, mo, k as int), ","@),
                decreases order@.len() - k,
            {
                let ghost before = body@;
                let p = order[k];
                proof {
                    assert(mo[k as int] == p as int);
                }
                if k > 0 {
                    push_str(&mut body, ",");
                }
                let key = json_quote(m[p].0.as_str());
                push_str(&mut body, key.as_str());
                push_str(&mut body, ":");
                proof {
                    assert(decreases_to!(*v => (*v)->Object_0));
                    assert(decreases_to!((*v)->Object_0 => (*v)->Object_0@));
                    assert(decreases_to!(m@ => m@[p as int]));
                    assert(decreases_to!(m@[p as int] => m@[p as int].1));
                }
                let t = render_json(&m[p].1);
                push_str(&mut body, t.as_str());
                proof {
                    let ps = member_texts(m@, mo, k + 1);
                    assert(ps.drop_last() == member_texts(m@, mo, k as int));
                    assert(ps.last() == key@ + ":"@ + t@);
                    if k == 0 {
                        assert(member_texts(m@, mo, 0) == Seq::<Seq<char>>::empty());
                        assert(ps =~= seq![ps.last()]);
                        assert(before =~= Seq::<char>::empty());
                    }
                    assert(body@ =~= joined(ps, ","@));
                }
                k = k + 1;
            }
            let mut out = string_of("{");
            push_str(&mut out, body.as_str());
            push_str(&mut out, "}");
            out
        },
    }
}

} // verus!
