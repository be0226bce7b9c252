//! JSON Pointer (RFC 6901) reference tokens: `~1` stands for `/` and `~0`
//! for `~`.

use vstd::prelude::*;
use crate::ast::{
    EntryView, Node, NodeView, ObjectEntry, Value, ValueView, entry_views, lemma_array_value_view,
    lemma_object_value_view, node_views,
};
use crate::parser_core::{parse_usize_chars, parse_usize_text};
use crate::text;

verus! {

broadcast use vstd::string::group_string_axioms;

/// `s` with every occurrence of `pat` replaced by `rep`, scanning from the
/// left and never looking into a replacement (as `str::replace` does).
pub open spec fn replace_all(s: Seq<char>, pat: Seq<char>, rep: Seq<char>) -> Seq<char>
    decreases s.len(),
{
    if s.len() == 0 {
        seq![]
    } else if 0 < pat.len() <= s.len() && s.take(pat.len() as int) == pat {
        rep + replace_all(s.skip(pat.len() as int), pat, rep)
    } else {
        seq![s[0]] + replace_all(s.skip(1), pat, rep)
    }
}

/// What [`decode_token`] gives for `t`.
pub open spec fn decoded(t: Seq<char>) -> Seq<char> {
    replace_all(replace_all(t, seq!['~', '1'], seq!['/']), seq!['~', '0'], seq!['~'])
}

/// What [`encode_token`] gives for `t`.
pub open spec fn encoded(t: Seq<char>) -> Seq<char> {
    replace_all(replace_all(t, seq!['~'], seq!['~', '0']), seq!['/'], seq!['~', '1'])
}

/// `s` with `pat` replaced by `rep` (see [`replace_all`]).
fn replace_text(s: &str, pat: &str, rep: &str) -> (r: String)
    requires
        pat@.len() > 0,
    ensures
        r@ == replace_all(s@, pat@, rep@),
{
    let chars = text::chars_of(s);
    let p = text::chars_of(pat);
    let n = chars.len();
    let k = p.len();
    let mut out = String::new();
    let mut i: usize = 0;
    proof {
        assert(chars@.skip(0) =~= chars@);
    }
    while i < n
        invariant
            chars@ == s@,
            p@ == pat@,
            n == chars@.len(),
            k == p@.len(),
            k > 0,
            i <= n,
            replace_all(s@, pat@, rep@) == out@ + replace_all(chars@.skip(i as int), pat@, rep@),
        decreases n - i,
    {
        let ghost rest = chars@.skip(i as int);
        let mut matched = k <= n - i;
        let mut j: usize = 0;
        while matched && j < k
            invariant
                chars@ == s@,
                p@ == pat@,
                n == chars@.len(),
                k == p@.len(),
                i < n,
                j <= k,
                rest == chars@.skip(i as int),
                matched ==> k <= n - i,
                matched ==> forall|m: int| 0 <= m < j ==> rest[m] == p@[m],
                !matched ==> !(k <= rest.len() && rest.take(k as int) == p@),
            decreases k - j + (if matched { 1int } else { 0int }),
        {
            if chars[i + j] != p[j] {
                proof {
                    assert(rest.take(k as int)[j as int] != p@[j as int]);
                }
                matched = false;
            } else {
                j += 1;
            }
        }
        let ghost old_out = out@;
        if matched {
            proof {
                assert(rest.take(k as int) =~= p@);
                assert(rest.skip(k as int) =~= chars@.skip(i + k));
                assert(old_out + (rep@ + replace_all(rest.skip(k as int), pat@, rep@)) =~= (old_out
                    + rep@) + replace_all(chars@.skip(i + k), pat@, rep@));
            }
            text::append_str(&mut out, rep);
            i = i + k;
        } else {
            let c = chars[i];
            proof {
                assert(rest[0] == c);
                assert(rest.skip(1) =~= chars@.skip(i + 1));
                assert(old_out + (seq![c] + replace_all(rest.skip(1), pat@, rep@)) =~= old_out.push(c)
                    + replace_all(chars@.skip(i + 1), pat@, rep@));
            }
            text::push_char(&mut out, c);
            i = i + 1;
        }
    }
    proof {
        assert(out@ + seq![] =~= out@);
    }
    out
}

/// A reference token with `~1` read as `/` and then `~0` read as `~`.
pub fn decode_token(token: &str) -> (r: String)
    ensures
        r@ == decoded(token@),
{
    proof {
        reveal_strlit("~1");
        reveal_strlit("/");
        reveal_strlit("~0");
        reveal_strlit("~");
        assert("~1"@ =~= seq!['~', '1']);
        assert("/"@ =~= seq!['/']);
        assert("~0"@ =~= seq!['~', '0']);
        assert("~"@ =~= seq!['~']);
    }
    let slashes = replace_text(token, "~1", "/");
    replace_text(slashes.as_str(), "~0", "~")
}

/// The inverse of [`decode_token`], for building paths from keys: `~` is
/// written `~0` and then `/` is written `~1`.
pub fn encode_token(token: &str) -> (r: String)
    ensures
        r@ == encoded(token@),
{
    proof {
        reveal_strlit("~1");
        reveal_strlit("/");
        reveal_strlit("~0");
        reveal_strlit("~");
        assert("~1"@ =~= seq!['~', '1']);
        assert("/"@ =~= seq!['/']);
        assert("~0"@ =~= seq!['~', '0']);
        assert("~"@ =~= seq!['~']);
    }
    let tildes = replace_text(token, "~", "~0");
    replace_text(tildes.as_str(), "/", "~1")
}

// ---------------------------------------------------------------------------
// Decoding undoes encoding
// ---------------------------------------------------------------------------

/// How one character is encoded.
pub open spec fn encode_char(c: char) -> Seq<char> {
    if c == '~' {
        seq!['~', '0']
    } else if c == '/' {
        seq!['~', '1']
    } else {
        seq![c]
    }
}

/// Every character encoded on its own, in order.
pub open spec fn encode_chars(t: Seq<char>) -> Seq<char>
    decreases t.len(),
{
    if t.len() == 0 {
        seq![]
    } else {
        encode_char(t[0]) + encode_chars(t.skip(1))
    }
}

/// Replacing a single character is replacing it wherever it stands.
proof fn lemma_replace_one(t: Seq<char>, c: char, rep: Seq<char>)
    ensures
        t.len() > 0 ==> replace_all(t, seq![c], rep) == (if t[0] == c {
            rep
        } else {
            seq![t[0]]
        }) + replace_all(t.skip(1), seq![c], rep),
{
    if t.len() > 0 {
        if t[0] == c {
            assert(t.take(1) =~= seq![c]);
        } else {
            assert(t.take(1) != seq![c]) by {
                assert(t.take(1)[0] != seq![c][0]);
            }
        }
    }
}

/// The two replacements of [`encoded`] encode character by character.
proof fn lemma_encoded_chars(t: Seq<char>)
    ensures
        encoded(t) == encode_chars(t),
    decreases t.len(),
{
    let slash = seq!['/'];
    let r1 = seq!['~', '1'];
    if t.len() == 0 {
        assert(replace_all(t, seq!['~'], seq!['~', '0']) =~= seq![]);
        assert(replace_all(seq![], slash, r1) =~= seq![]);
        assert(encode_chars(t) =~= seq![]);
    } else {
        let c = t[0];
        let rest = t.skip(1);
        lemma_encoded_chars(rest);
        lemma_replace_one(t, '~', seq!['~', '0']);
        let first = if c == '~' {
            seq!['~', '0']
        } else {
            seq![c]
        };
        let tail = replace_all(rest, seq!['~'], seq!['~', '0']);
        assert(replace_all(t, seq!['~'], seq!['~', '0']) == first + tail);
        lemma_replace_prefix_one(first, tail, '/', r1);
        assert(replace_all(first, slash, r1) == encode_char(c)) by {
            lemma_replace_one(first, '/', r1);
            if c == '~' {
                lemma_replace_one(first.skip(1), '/', r1);
                assert(first.skip(1).skip(1) =~= seq![]);
                assert(replace_all(seq![], slash, r1) =~= seq![]);
                assert(first.skip(1) =~= seq!['0']);
                assert(seq!['~'] + (seq!['0'] + seq![]) =~= seq!['~', '0']);
            } else {
                assert(first.skip(1) =~= seq![]);
                assert(replace_all(seq![], slash, r1) =~= seq![]);
                if c == '/' {
                    assert(r1 + seq![] =~= r1);
                } else {
                    assert(seq![c] + seq![] =~= seq![c]);
                }
            }
        }
    }
}

/// Replacing a single character in `a + b` replaces it in each part.
proof fn lemma_replace_prefix_one(a: Seq<char>, b: Seq<char>, c: char, rep: Seq<char>)
    ensures
        replace_all(a + b, seq![c], rep) == replace_all(a, seq![c], rep) + replace_all(
            b,
            seq![c],
            rep,
        ),
    decreases a.len(),
{
    if a.len() == 0 {
        assert(a + b =~= b);
        assert(replace_all(a, seq![c], rep) =~= seq![]);
        assert(seq![] + replace_all(b, seq![c], rep) =~= replace_all(b, seq![c], rep));
    } else {
        lemma_replace_one(a + b, c, rep);
        lemma_replace_one(a, c, rep);
        assert((a + b).skip(1) =~= a.skip(1) + b);
        assert((a + b)[0] == a[0]);
        lemma_replace_prefix_one(a.skip(1), b, c, rep);
        let h = if a[0] == c {
            rep
        } else {
            seq![a[0]]
        };
        assert(h + (replace_all(a.skip(1), seq![c], rep) + replace_all(b, seq![c], rep)) =~= (h
            + replace_all(a.skip(1), seq![c], rep)) + replace_all(b, seq![c], rep));
    }
}

/// The first decoding pass over encoded text turns each encoded `/` back.
proof fn lemma_decode_slashes(t: Seq<char>)
    ensures
        replace_all(encode_chars(t), seq!['~', '1'], seq!['/']) == encode_tildes(t),
    decreases t.len(),
{
    let pat = seq!['~', '1'];
    let rep = seq!['/'];
    if t.len() == 0 {
        assert(encode_chars(t) =~= seq![]);
        assert(encode_tildes(t) =~= seq![]);
        assert(replace_all(encode_chars(t), pat, rep) =~= seq![]);
    } else {
        let c = t[0];
        let rest = t.skip(1);
        lemma_decode_slashes(rest);
        let e = encode_chars(t);
        let er = encode_chars(rest);
        assert(e == encode_char(c) + er);
        if c == '/' {
            assert(e.take(2) =~= pat);
            assert(e.skip(2) =~= er);
            assert(replace_all(e, pat, rep) == rep + replace_all(er, pat, rep));
        } else if c == '~' {
            assert(e[0] == '~' && e[1] == '0');
            assert(e.take(2) != pat) by {
                assert(e.take(2)[1] != pat[1]);
            }
            let e1 = e.skip(1);
            assert(e1[0] == '0');
            assert(e1.len() >= 2 ==> e1.take(2) != pat) by {
                if e1.len() >= 2 {
                    assert(e1.take(2)[0] != pat[0]);
                }
            }
            assert(e1.skip(1) =~= er);
            assert(replace_all(e1, pat, rep) == seq!['0'] + replace_all(er, pat, rep));
            assert(replace_all(e, pat, rep) == seq!['~'] + replace_all(e1, pat, rep));
            assert(seq!['~'] + (seq!['0'] + replace_all(er, pat, rep)) =~= seq!['~', '0']
                + replace_all(er, pat, rep));
        } else {
            assert(e[0] == c);
            assert(e.len() >= 2 ==> e.take(2) != pat) by {
                if e.len() >= 2 {
                    assert(e.take(2)[0] != pat[0]);
                }
            }
            assert(e.skip(1) =~= er);
            assert(replace_all(e, pat, rep) == seq![c] + replace_all(er, pat, rep));
        }
    }
}

/// Text with only `~` still encoded.
pub open spec fn encode_tildes(t: Seq<char>) -> Seq<char>
    decreases t.len(),
{
    if t.len() == 0 {
        seq![]
    } else {
        (if t[0] == '~' {
            seq!['~', '0']
        } else {
            seq![t[0]]
        }) + encode_tildes(t.skip(1))
    }
}

/// The second decoding pass turns each encoded `~` back.
proof fn lemma_decode_tildes(t: Seq<char>)
    ensures
        replace_all(encode_tildes(t), seq!['~', '0'], seq!['~']) == t,
    decreases t.len(),
{
    let pat = seq!['~', '0'];
    let rep = seq!['~'];
    if t.len() == 0 {
        assert(encode_tildes(t) =~= seq![]);
        assert(t =~= seq![]);
    } else {
        let c = t[0];
        let rest = t.skip(1);
        lemma_decode_tildes(rest);
        let e = encode_tildes(t);
        let er = encode_tildes(rest);
        if c == '~' {
            assert(e.take(2) =~= pat);
            assert(e.skip(2) =~= er);
        } else {
            assert(e[0] == c);
            assert(e.len() >= 2 ==> e.take(2) != pat) by {
                if e.len() >= 2 {
                    assert(e.take(2)[0] != pat[0]);
                }
            }
            assert(e.skip(1) =~= er);
        }
        assert(t =~= seq![c] + rest);
    }
}

/// Decoding an encoded token gives the token back, for every token.
pub proof fn lemma_decode_encode(t: Seq<char>)
    ensures
        decoded(encoded(t)) == t,
{
    lemma_encoded_chars(t);
    lemma_decode_slashes(t);
    lemma_decode_tildes(t);
}

/// Text with no `/`, in which every `~` is followed by `0` or `1`.
pub open spec fn well_encoded(e: Seq<char>) -> bool {
    &&& forall|i: int| 0 <= i < e.len() ==> #[trigger] e[i] != '/'
    &&& forall|i: int|
        0 <= i < e.len() && #[trigger] e[i] == '~' ==> i + 1 < e.len() && (e[i + 1] == '0' || e[i
            + 1] == '1')
}

proof fn lemma_encode_chars_well_encoded(t: Seq<char>)
    ensures
        well_encoded(encode_chars(t)),
    decreases t.len(),
{
    if t.len() > 0 {
        lemma_encode_chars_well_encoded(t.skip(1));
        let first = encode_char(t[0]);
        let rest = encode_chars(t.skip(1));
        let e = encode_chars(t);
        assert(e == first + rest);
        assert forall|i: int| 0 <= i < e.len() implies #[trigger] e[i] != '/' by {
            if i >= first.len() {
                assert(e[i] == rest[i - first.len()]);
            }
        }
        assert forall|i: int| 0 <= i < e.len() && #[trigger] e[i] == '~' implies i + 1 < e.len() && (
        e[i + 1] == '0' || e[i + 1] == '1') by {
            if i >= first.len() {
                assert(e[i] == rest[i - first.len()]);
                assert(e[i + 1] == rest[i + 1 - first.len()]);
            }
        }
    }
}

/// An encoded token is a single path segment: it holds no `/`, and each `~`
/// in it starts one of the two escapes `~0` and `~1`.
pub proof fn lemma_encoded_shape(t: Seq<char>)
    ensures
        well_encoded(encoded(t)),
{
    lemma_encoded_chars(t);
    lemma_encode_chars_well_encoded(t);
}

// ---------------------------------------------------------------------------
// Paths
// ---------------------------------------------------------------------------

/// Offset of the first `c` in `s` at or after `i`, or the length.
pub open spec fn char_from(s: Seq<char>, c: char, i: int) -> int
    decreases s.len() - i,
{
    if i < 0 || i >= s.len() {
        s.len() as int
    } else if s[i] == c {
        i
    } else {
        char_from(s, c, i + 1)
    }
}

pub proof fn lemma_char_from(s: Seq<char>, c: char, i: int)
    requires
        0 <= i <= s.len(),
    ensures
        i <= char_from(s, c, i) <= s.len(),
        char_from(s, c, i) < s.len() ==> s[char_from(s, c, i)] == c,
        forall|k: int| i <= k < char_from(s, c, i) ==> #[trigger] s[k] != c,
    decreases s.len() - i,
{
    if i < s.len() && s[i] != c {
        lemma_char_from(s, c, i + 1);
    }
}

/// The pieces of `s` between the occurrences of `c` (as `str::split` gives
/// them: one piece for no occurrence, empty pieces kept).
pub open spec fn split_on(s: Seq<char>, c: char) -> Seq<Seq<char>>
    decreases s.len(),
{
    let e = char_from(s, c, 0);
    if e >= s.len() {
        seq![s]
    } else {
        proof {
            lemma_char_from(s, c, 0);
        }
        seq![s.take(e)] + split_on(s.skip(e + 1), c)
    }
}

/// The reference tokens of a JSON Pointer, not yet decoded: none for the
/// empty path, the pieces between the slashes for a path that starts with
/// `/`, and `None` for any other path.
pub open spec fn path_tokens(path: Seq<char>) -> Option<Seq<Seq<char>>> {
    if path.len() == 0 {
        Some(seq![])
    } else if path[0] != '/' {
        None
    } else {
        Some(split_on(path.skip(1), '/'))
    }
}

/// The reference tokens of `path` (see [`path_tokens`]).
pub fn tokens(path: &str) -> (r: Option<Vec<String>>)
    ensures
        match path_tokens(path@) {
            None => r is None,
            Some(ts) => r matches Some(v) && v@.len() == ts.len() && forall|i: int|
                0 <= i < ts.len() ==> #[trigger] v@[i]@ == ts[i],
        },
{
    let chars = text::chars_of(path);
    let n = chars.len();
    if n == 0 {
        return Some(Vec::new());
    }
    if chars[0] != '/' {
        return None;
    }
    let ghost all = chars@.skip(1);
    let mut out: Vec<String> = Vec::new();
    let mut start: usize = 1;
    loop
        invariant
            chars@ == path@,
            n == chars@.len(),
            1 <= start <= n,
            chars@[0] == '/',
            all == chars@.skip(1),
            forall|i: int| 0 <= i < out@.len() ==> #[trigger] out@[i]@ == split_on(all, '/')[i],
            split_on(all, '/') == out@.map_values(|t: String| t@) + split_on(
                chars@.skip(start as int),
                '/',
            ),
        decreases n - start,
    {
        let ghost rest = chars@.skip(start as int);
        let mut e = start;
        while e < n && chars[e] != '/'
            invariant
                chars@ == path@,
                n == chars@.len(),
                start <= e <= n,
                rest == chars@.skip(start as int),
                char_from(rest, '/', 0) == char_from(rest, '/', e - start),
            decreases n - e,
        {
            e += 1;
        }
        proof {
            lemma_char_from(rest, '/', 0);
            assert(rest.take(e - start) =~= chars@.subrange(start as int, e as int));
        }
        let piece = text::string_from_chars(&chars, start, e);
        let ghost old_out = out@;
        out.push(piece);
        if e == n {
            proof {
                assert(rest.take(e - start) =~= rest);
                assert(out@.map_values(|t: String| t@) =~= old_out.map_values(|t: String| t@).push(
                    piece@,
                ));
                assert(split_on(all, '/') =~= out@.map_values(|t: String| t@));
                assert forall|i: int| 0 <= i < out@.len() implies #[trigger] out@[i]@ == split_on(
                    all,
                    '/',
                )[i] by {
                    assert(out@.map_values(|t: String| t@)[i] == out@[i]@);
                }
                assert(path@.skip(1) == all);
            }
            return Some(out);
        }
        proof {
            assert(rest.skip(e - start + 1) =~= chars@.skip(e + 1));
            assert(out@.map_values(|t: String| t@) =~= old_out.map_values(|t: String| t@).push(
                piece@,
            ));
            assert(split_on(all, '/') =~= out@.map_values(|t: String| t@) + split_on(
                chars@.skip(e + 1),
                '/',
            ));
        }
        start = e + 1;
    }
}

// ---------------------------------------------------------------------------
// Lookups
// ---------------------------------------------------------------------------

/// Index of the first member of `ms` with key `key`, or -1.
pub open spec fn member_index(ms: Seq<EntryView>, key: Seq<char>) -> int
    decreases ms.len(),
{
    if ms.len() == 0 {
        -1
    } else if ms[0].key == key {
        0
    } else if member_index(ms.drop_first(), key) < 0 {
        -1
    } else {
        member_index(ms.drop_first(), key) + 1
    }
}

pub proof fn lemma_member_index(ms: Seq<EntryView>, key: Seq<char>)
    ensures
        -1 <= member_index(ms, key) < ms.len(),
        member_index(ms, key) >= 0 ==> ms[member_index(ms, key)].key == key,
        forall|j: int|
            0 <= j < ms.len() && (member_index(ms, key) < 0 || j < member_index(ms, key))
                ==> #[trigger] ms[j].key != key,
    decreases ms.len(),
{
    if ms.len() > 0 && ms[0].key != key {
        let t = ms.drop_first();
        lemma_member_index(t, key);
        assert forall|j: int|
            0 <= j < ms.len() && (member_index(ms, key) < 0 || j < member_index(ms, key)) implies #[trigger] ms[j].key
                != key by {
            if j > 0 {
                assert(ms[j] == t[j - 1]);
            }
        }
    }
}

/// The node one reference token selects in `v`: the first member with the
/// decoded token as key, or the element at the index the token reads as.
pub open spec fn child_of(v: ValueView, token: Seq<char>) -> Option<NodeView> {
    let key = decoded(token);
    match v {
        ValueView::Object(ms) => if member_index(ms, key) < 0 {
            None
        } else {
            Some(ms[member_index(ms, key)].value)
        },
        ValueView::Array(items) => match parse_usize_text(key) {
            Some(i) => if i < items.len() {
                Some(items[i as int])
            } else {
                None
            },
            None => None,
        },
        _ => None,
    }
}

/// The node the tokens `ts` lead to from `n`, one step at a time.
pub open spec fn node_at(n: NodeView, ts: Seq<Seq<char>>) -> Option<NodeView>
    decreases ts.len(),
{
    if ts.len() == 0 {
        Some(n)
    } else {
        match child_of(n.value, ts[0]) {
            Some(c) => node_at(c, ts.drop_first()),
            None => None,
        }
    }
}

/// The node that `path` points to from `n`; `None` when `path` is not a
/// JSON Pointer or leads nowhere.
pub open spec fn pointed_node(n: NodeView, path: Seq<char>) -> Option<NodeView> {
    match path_tokens(path) {
        None => None,
        Some(ts) => node_at(n, ts),
    }
}

/// The value that `path` points to from `v` (see [`pointed_node`]).
pub open spec fn pointed_value(v: ValueView, path: Seq<char>) -> Option<ValueView> {
    match path_tokens(path) {
        None => None,
        Some(ts) => if ts.len() == 0 {
            Some(v)
        } else {
            match child_of(v, ts[0]) {
                None => None,
                Some(c) => match node_at(c, ts.drop_first()) {
                    Some(n) => Some(n.value),
                    None => None,
                },
            }
        },
    }
}

/// One step: a member by key, or an element by index (see [`child_of`]).
fn child<'a>(value: &'a Value, token: &str) -> (r: Option<&'a Node>)
    ensures
        match child_of(value@, token@) {
            Some(c) => r matches Some(n) && n@ == c,
            None => r is None,
        },
{
    let key = decode_token(token);
    match value {
        Value::Object(members) => {
            proof {
                lemma_object_value_view(*members);
                lemma_member_index(entry_views(members@), key@);
            }
            let ghost ms = entry_views(members@);
            let mut i: usize = 0;
            while i < members.len()
                invariant
                    i <= members@.len(),
                    ms == entry_views(members@),
                    value@ == ValueView::Object(ms),
                    key@ == decoded(token@),
                    forall|j: int| 0 <= j < i ==> #[trigger] ms[j].key != key@,
                decreases members.len() - i,
            {
                assert(ms[i as int] == members@[i as int]@);
                if crate::keys::str_eq(members[i].key.as_str(), key.as_str()) {
                    proof {
                        lemma_member_index(ms, key@);
                        assert(ms[i as int].key == key@);
                        let mi = member_index(ms, key@);
                        if mi < 0 || mi > i {
                            assert(ms[i as int].key != key@);
                        }
                        if 0 <= mi < i {
                            assert(ms[mi].key != key@);
                        }
                        assert(mi == i);
                        assert(ms[i as int].value == members@[i as int].value@);
                        assert(value@ == ValueView::Object(ms));
                        assert(child_of(value@, token@) == Some(ms[i as int].value));
                    }
                    return Some(&members[i].value);
                }
                i += 1;
            }
            proof {
                lemma_member_index(ms, key@);
                if member_index(ms, key@) >= 0 {
                    assert(ms[member_index(ms, key@)].key == key@);
                }
            }
            None
        },
        Value::Array(elements) => {
            proof {
                lemma_array_value_view(*elements);
            }
            let chars = text::chars_of(key.as_str());
            let idx = parse_usize_chars(&chars, 0, chars.len());
            proof {
                assert(chars@.subrange(0, chars@.len() as int) =~= key@);
            }
            match idx {
                Some(i) => if i < elements.len() {
                    assert(node_views(elements@)[i as int] == elements@[i as int]@);
                    Some(&elements[i])
                } else {
                    None
                },
                None => None,
            }
        },
        _ => None,
    }
}

impl Node {
    /// The node at `path`, with its comments; `""` is the node itself (see
    /// [`pointed_node`]).
    pub fn pointer(&self, path: &str) -> (r: Option<&Node>)
        ensures
            match pointed_node(self@, path@) {
                Some(n) => r matches Some(p) && p@ == n,
                None => r is None,
            },
    {
        let ts = match tokens(path) {
            Some(ts) => ts,
            None => {
                return None;
            },
        };
        let ghost tv = path_tokens(path@)->0;
        let mut node = self;
        let mut k: usize = 0;
        proof {
            assert(tv.skip(0) =~= tv);
        }
        while k < ts.len()
            invariant
                k <= ts@.len(),
                ts@.len() == tv.len(),
                forall|i: int| 0 <= i < tv.len() ==> #[trigger] ts@[i]@ == tv[i],
                pointed_node(self@, path@) == node_at(node@, tv.skip(k as int)),
                path_tokens(path@) == Some(tv),
            decreases ts.len() - k,
        {
            proof {
                assert(tv.skip(k as int)[0] == tv[k as int]);
                assert(tv.skip(k as int).drop_first() =~= tv.skip(k + 1));
            }
            node = match child(&node.value, ts[k].as_str()) {
                Some(c) => c,
                None => {
                    return None;
                },
            };
            k += 1;
        }
        proof {
            assert(tv.skip(k as int).len() == 0);
        }
        Some(node)
    }
}

impl Value {
    /// The value at `path`; `""` is the value itself (see
    /// [`pointed_value`]).
    pub fn pointer(&self, path: &str) -> (r: Option<&Value>)
        ensures
            match pointed_value(self@, path@) {
                Some(v) => r matches Some(p) && p@ == v,
                None => r is None,
            },
    {
        let ts = match tokens(path) {
            Some(ts) => ts,
            None => {
                return None;
            },
        };
        let ghost tv = path_tokens(path@)->0;
        if ts.len() == 0 {
            return Some(self);
        }
        let mut node = match child(self, ts[0].as_str()) {
            Some(c) => c,
            None => {
                return None;
            },
        };
        let mut k: usize = 1;
        proof {
            assert(tv.skip(1) =~= tv.drop_first());
        }
        while k < ts.len()
            invariant
                1 <= k <= ts@.len(),
                ts@.len() == tv.len(),
                forall|i: int| 0 <= i < tv.len() ==> #[trigger] ts@[i]@ == tv[i],
                path_tokens(path@) == Some(tv),
                child_of(self@, tv[0]) is Some,
                match node_at(child_of(self@, tv[0])->0, tv.drop_first()) {
                    Some(n) => node_at(node@, tv.skip(k as int)) == Some(n),
                    None => node_at(node@, tv.skip(k as int)) is None,
                },
            decreases ts.len() - k,
        {
            proof {
                assert(tv.skip(k as int)[0] == tv[k as int]);
                assert(tv.skip(k as int).drop_first() =~= tv.skip(k + 1));
            }
            node = match child(&node.value, ts[k].as_str()) {
                Some(c) => c,
                None => {
                    return None;
                },
            };
            k += 1;
        }
        proof {
            assert(tv.skip(k as int).len() == 0);
        }
        Some(&node.value)
    }
}


// ---------------------------------------------------------------------------
// Writing through a path
// ---------------------------------------------------------------------------

/// The texts of a list of tokens.
pub open spec fn token_texts(ts: Seq<String>) -> Seq<Seq<char>> {
    ts.map_values(|t: String| t@)
}

/// The value the tokens `ts` lead to from the value `v`.
pub open spec fn value_at(v: ValueView, ts: Seq<Seq<char>>) -> Option<ValueView>
    decreases ts.len(),
{
    if ts.len() == 0 {
        Some(v)
    } else {
        match child_of(v, ts[0]) {
            None => None,
            Some(c) => value_at(c.value, ts.drop_first()),
        }
    }
}

/// `v` with the node that `token` selects (see [`child_of`]) replaced by
/// `c`; unchanged when the token selects nothing.
pub open spec fn with_child(v: ValueView, token: Seq<char>, c: NodeView) -> ValueView {
    let key = decoded(token);
    match v {
        ValueView::Object(ms) => {
            let i = member_index(ms, key);
            if i < 0 {
                v
            } else {
                ValueView::Object(
                    ms.update(i, EntryView { key: ms[i].key, key_trivia: ms[i].key_trivia, value: c }),
                )
            }
        },
        ValueView::Array(items) => match parse_usize_text(key) {
            Some(i) => if i < items.len() {
                ValueView::Array(items.update(i as int, c))
            } else {
                v
            },
            None => v,
        },
        _ => v,
    }
}

/// `v` with the value that the tokens `ts` lead to replaced by `new`, the
/// nodes on the way keeping their comments; unchanged where the tokens lead
/// nowhere.
pub open spec fn value_set_at(v: ValueView, ts: Seq<Seq<char>>, new: ValueView) -> ValueView
    decreases ts.len(),
{
    if ts.len() == 0 {
        new
    } else {
        match child_of(v, ts[0]) {
            None => v,
            Some(c) => with_child(
                v,
                ts[0],
                NodeView { value: value_set_at(c.value, ts.drop_first(), new), trivia: c.trivia, comma: c.comma },
            ),
        }
    }
}

/// Position of the first member with key `key` (see [`member_index`]).
pub(crate) fn member_position(members: &Vec<ObjectEntry>, key: &str) -> (r: Option<usize>)
    ensures
        r is None <==> member_index(entry_views(members@), key@) < 0,
        r matches Some(j) ==> j == member_index(entry_views(members@), key@),
{
    let ghost ms = entry_views(members@);
    proof {
        lemma_member_index(ms, key@);
    }
    let mut i: usize = 0;
    while i < members.len()
        invariant
            i <= members@.len(),
            ms == entry_views(members@),
            forall|j: int| 0 <= j < i ==> #[trigger] ms[j].key != key@,
            -1 <= member_index(ms, key@) < ms.len(),
            member_index(ms, key@) >= 0 ==> ms[member_index(ms, key@)].key == key@,
            forall|j: int|
                0 <= j < ms.len() && (member_index(ms, key@) < 0 || j < member_index(ms, key@))
                    ==> #[trigger] ms[j].key != key@,
        decreases members.len() - i,
    {
        assert(ms[i as int] == members@[i as int]@);
        if crate::keys::str_eq(members[i].key.as_str(), key) {
            proof {
                let mi = member_index(ms, key@);
                if mi < 0 || mi > i {
                    assert(ms[i as int].key != key@);
                }
                if 0 <= mi < i {
                    assert(ms[mi].key != key@);
                }
            }
            return Some(i);
        }
        i += 1;
    }
    proof {
        if member_index(ms, key@) >= 0 {
            assert(ms[member_index(ms, key@)].key == key@);
        }
    }
    None
}

/// Replacing the value node of member `i` of an object replaces it in the
/// object's model.
proof fn lemma_object_update(m: Vec<ObjectEntry>, i: int)
    requires
        0 <= i < m@.len(),
    ensures
        forall|m2: Vec<ObjectEntry>, n: Node|
            #![trigger Value::Object(m2)@, m@.update(i, ObjectEntry { key: m@[i].key, key_trivia: m@[i].key_trivia, value: n })]
            m2@ == m@.update(i, ObjectEntry { key: m@[i].key, key_trivia: m@[i].key_trivia, value: n })
                ==> Value::Object(m2)@ == ValueView::Object(
                entry_views(m@).update(
                    i,
                    EntryView {
                        key: entry_views(m@)[i].key,
                        key_trivia: entry_views(m@)[i].key_trivia,
                        value: n@,
                    },
                ),
            ),
{
    assert forall|m2: Vec<ObjectEntry>, n: Node|
        m2@ == m@.update(i, ObjectEntry { key: m@[i].key, key_trivia: m@[i].key_trivia, value: n })
            implies Value::Object(m2)@ == ValueView::Object(
        entry_views(m@).update(
            i,
            EntryView { key: entry_views(m@)[i].key, key_trivia: entry_views(m@)[i].key_trivia, value: n@ },
        ),
    ) by {
        lemma_object_value_view(m2);
        assert(entry_views(m2@) =~= entry_views(m@).update(
            i,
            EntryView { key: entry_views(m@)[i].key, key_trivia: entry_views(m@)[i].key_trivia, value: n@ },
        ));
    }
}

/// The value node of the member that `token` selects, at `i`, to be
/// written through.
fn member_node_mut<'a>(members: &'a mut Vec<ObjectEntry>, i: usize, Ghost(token): Ghost<Seq<char>>) -> (r: &'a mut Node)
    requires
        i < old(members)@.len(),
        member_index(entry_views(old(members)@), decoded(token)) == i,
    ensures
        *r == old(members)@[i as int].value,
        Value::Object(*final(members))@ == with_child(
            Value::Object(*old(members))@,
            token,
            (*final(r))@,
        ),
{
    proof {
        lemma_object_update(*members, i as int);
        lemma_with_child_object(Value::Object(*members), token);
        lemma_object_value_view(*members);
    }
    let entry = &mut members[i];
    &mut entry.value
}

/// [`with_child`] on the model of `v`, taken apart by its variant.
pub open spec fn with_child_in(v: Value, token: Seq<char>, c: NodeView) -> ValueView {
    match v {
        Value::Object(m) => with_child(Value::Object(m)@, token, c),
        Value::Array(e) => with_child(Value::Array(e)@, token, c),
        _ => v@,
    }
}

proof fn lemma_with_child_in(v: Value, token: Seq<char>)
    ensures
        forall|c: NodeView| #[trigger] with_child_in(v, token, c) == with_child(v@, token, c),
{
}

/// Element `i` of an array, which `token` selects, to be written through.
fn element_node_mut<'a>(elements: &'a mut Vec<Node>, i: usize, Ghost(token): Ghost<Seq<char>>) -> (r: &'a mut Node)
    requires
        i < old(elements)@.len(),
        parse_usize_text(decoded(token)) == Some(i as nat),
    ensures
        *r == old(elements)@[i as int],
        Value::Array(*final(elements))@ == with_child(
            Value::Array(*old(elements))@,
            token,
            (*final(r))@,
        ),
{
    proof {
        lemma_array_update(*elements, i as int);
        lemma_array_value_view(*elements);
    }
    &mut elements[i]
}

/// Replacing element `i` of an array replaces it in the array's model.
proof fn lemma_array_update(m: Vec<Node>, i: int)
    requires
        0 <= i < m@.len(),
    ensures
        forall|m2: Vec<Node>, n: Node|
            #![trigger Value::Array(m2)@, m@.update(i, n)]
            m2@ == m@.update(i, n) ==> Value::Array(m2)@ == ValueView::Array(
                node_views(m@).update(i, n@),
            ),
{
    assert forall|m2: Vec<Node>, n: Node| m2@ == m@.update(i, n) implies Value::Array(m2)@
        == ValueView::Array(node_views(m@).update(i, n@)) by {
        lemma_array_value_view(m2);
        assert(node_views(m2@) =~= node_views(m@).update(i, n@));
    }
}

/// In an object, the node a token selects is a member's value.
proof fn lemma_with_child_object(v: Value, token: Seq<char>)
    requires
        v is Object,
    ensures
        forall|x: NodeView|
            #![trigger with_child(v@, token, x)]
            member_index(entry_views(v->Object_0@), decoded(token)) >= 0 ==> with_child(v@, token, x)
                == ValueView::Object(
                entry_views(v->Object_0@).update(
                    member_index(entry_views(v->Object_0@), decoded(token)),
                    EntryView {
                        key: entry_views(v->Object_0@)[member_index(
                            entry_views(v->Object_0@),
                            decoded(token),
                        )].key,
                        key_trivia: entry_views(v->Object_0@)[member_index(
                            entry_views(v->Object_0@),
                            decoded(token),
                        )].key_trivia,
                        value: x,
                    },
                ),
            ),
{
    lemma_object_value_view(v->Object_0);
}

/// One step, for writing: the node that `token` selects (see
/// [`child_of`]), the rest of `value` staying as it is.
fn child_mut<'a>(value: &'a mut Value, token: &str) -> (r: Option<&'a mut Node>)
    ensures
        child_of(old(value)@, token@) is None ==> r is None && final(value)@ == old(value)@,
        child_of(old(value)@, token@) is Some ==> r is Some && (*(r->Some_0))@ == child_of(
            old(value)@,
            token@,
        )->Some_0,
        r is Some ==> final(value)@ == with_child_in(*old(value), token@, (*final(r->Some_0))@),
{
    let key = decode_token(token);
    let ks = key.as_str();
    proof {
        assert(ks@ == decoded(token@));
    }
    match value {
        Value::Object(members) => {
            proof {
                lemma_object_value_view(*members);
                lemma_member_index(entry_views(members@), key@);
            }
            match member_position(members, ks) {
                Some(i) => {
                    proof {
                        assert(entry_views(members@)[i as int] == members@[i as int]@);
                    }
                    Some(member_node_mut(members, i, Ghost(token@)))
                },
                None => None,
            }
        },
        Value::Array(elements) => {
            proof {
                lemma_array_value_view(*elements);
            }
            let chars = text::chars_of(ks);
            let idx = parse_usize_chars(&chars, 0, chars.len());
            proof {
                assert(chars@.subrange(0, chars@.len() as int) =~= key@);
            }
            match idx {
                Some(i) => if i < elements.len() {
                    proof {
                        assert(node_views(elements@)[i as int] == elements@[i as int]@);
                    }
                    Some(element_node_mut(elements, i, Ghost(token@)))
                } else {
                    None
                },
                None => None,
            }
        },
        _ => None,
    }
}


/// `n` with the node that the tokens `ts` lead to replaced by `new`; the
/// nodes on the way keep their comments and commas. Unchanged where the
/// tokens lead nowhere.
pub open spec fn node_set_at(n: NodeView, ts: Seq<Seq<char>>, new: NodeView) -> NodeView
    decreases ts.len(),
{
    if ts.len() == 0 {
        new
    } else {
        match child_of(n.value, ts[0]) {
            None => n,
            Some(c) => NodeView {
                value: with_child(n.value, ts[0], node_set_at(c, ts.drop_first(), new)),
                trivia: n.trivia,
                comma: n.comma,
            },
        }
    }
}

/// Putting back the node a token selects leaves the value as it was.
proof fn lemma_with_child_same(v: ValueView, token: Seq<char>)
    ensures
        child_of(v, token) matches Some(c) ==> with_child(v, token, c) == v,
{
    let key = decoded(token);
    match v {
        ValueView::Object(ms) => {
            let i = member_index(ms, key);
            if i >= 0 {
                lemma_member_index(ms, key);
                assert(ms.update(
                    i,
                    EntryView { key: ms[i].key, key_trivia: ms[i].key_trivia, value: ms[i].value },
                ) =~= ms);
            }
        },
        ValueView::Array(items) => {
            if let Some(i) = parse_usize_text(key) {
                if i < items.len() {
                    assert(items.update(i as int, items[i as int]) =~= items);
                }
            }
        },
        _ => {},
    }
}

/// The node that `ts[k..]` lead to from `n`, to be written through (see
/// [`node_at`] and [`node_set_at`]).
fn node_at_mut<'a>(n: &'a mut Node, ts: &Vec<String>, k: usize) -> (r: Option<&'a mut Node>)
    requires
        k <= ts@.len(),
    ensures
        match node_at(old(n)@, token_texts(ts@).skip(k as int)) {
            Some(t) => r is Some && (*(r->Some_0))@ == t && final(n)@ == node_set_at(
                old(n)@,
                token_texts(ts@).skip(k as int),
                (*final(r->Some_0))@,
            ),
            None => r is None && final(n)@ == old(n)@,
        },
    decreases ts@.len() - k,
{
    let ghost tv = token_texts(ts@).skip(k as int);
    if k == ts.len() {
        proof {
            assert(tv =~= seq![]);
        }
        return Some(n);
    }
    proof {
        assert(tv[0] == ts@[k as int]@);
        assert(tv.drop_first() =~= token_texts(ts@).skip(k + 1));
        lemma_with_child_in(n.value, tv[0]);
        lemma_with_child_same(n.value@, tv[0]);
    }
    match child_mut(&mut n.value, ts[k].as_str()) {
        None => None,
        Some(c) => node_at_mut(c, ts, k + 1),
    }
}

/// The value that `ts[k..]` lead to from `v`, to be written through (see
/// [`value_at`] and [`value_set_at`]).
fn value_at_mut<'a>(v: &'a mut Value, ts: &Vec<String>, k: usize) -> (r: Option<&'a mut Value>)
    requires
        k <= ts@.len(),
    ensures
        match value_at(old(v)@, token_texts(ts@).skip(k as int)) {
            Some(t) => r is Some && (*(r->Some_0))@ == t && final(v)@ == value_set_at(
                old(v)@,
                token_texts(ts@).skip(k as int),
                (*final(r->Some_0))@,
            ),
            None => r is None && final(v)@ == old(v)@,
        },
    decreases ts@.len() - k,
{
    let ghost tv = token_texts(ts@).skip(k as int);
    if k == ts.len() {
        proof {
            assert(tv =~= seq![]);
        }
        return Some(v);
    }
    proof {
        assert(tv[0] == ts@[k as int]@);
        assert(tv.drop_first() =~= token_texts(ts@).skip(k + 1));
        lemma_with_child_in(*v, tv[0]);
        lemma_with_child_same(v@, tv[0]);
    }
    match child_mut(v, ts[k].as_str()) {
        None => None,
        Some(c) => value_at_mut(&mut c.value, ts, k + 1),
    }
}


/// Following the tokens to a value is following them to a node and taking
/// its value.
proof fn lemma_value_at_node_at(n: NodeView, ts: Seq<Seq<char>>)
    ensures
        value_at(n.value, ts) == match node_at(n, ts) {
            Some(m) => Some(m.value),
            None => None::<ValueView>,
        },
    decreases ts.len(),
{
    if ts.len() > 0 {
        if let Some(c) = child_of(n.value, ts[0]) {
            lemma_value_at_node_at(c, ts.drop_first());
        }
    }
}

/// The value `path` points to is the one its tokens lead to.
pub proof fn lemma_pointed_value(v: ValueView, path: Seq<char>)
    ensures
        pointed_value(v, path) == match path_tokens(path) {
            Some(ts) => value_at(v, ts),
            None => None::<ValueView>,
        },
{
    if let Some(ts) = path_tokens(path) {
        if ts.len() > 0 {
            if let Some(c) = child_of(v, ts[0]) {
                lemma_value_at_node_at(c, ts.drop_first());
            }
        }
    }
}

impl Node {
    /// [`Node::pointer`] for writing: the node at `path`, through which the
    /// node can be changed; what is written there takes the place of the
    /// node `path` pointed to (see [`node_set_at`]).
    pub fn pointer_mut(&mut self, path: &str) -> (r: Option<&mut Node>)
        ensures
            match pointed_node(old(self)@, path@) {
                Some(t) => r is Some && (*(r->Some_0))@ == t && final(self)@ == node_set_at(
                    old(self)@,
                    path_tokens(path@)->0,
                    (*final(r->Some_0))@,
                ),
                None => r is None && final(self)@ == old(self)@,
            },
    {
        let ts = match tokens(path) {
            Some(ts) => ts,
            None => {
                return None;
            },
        };
        proof {
            assert(token_texts(ts@) =~= path_tokens(path@)->0);
            assert(token_texts(ts@).skip(0) =~= token_texts(ts@));
        }
        node_at_mut(self, &ts, 0)
    }
}

impl Value {
    /// [`Value::pointer`] for writing: the value at `path`, through which
    /// this value can be changed; what is written there takes the place of
    /// the value `path` pointed to, the nodes on the way keeping their
    /// comments (see [`value_set_at`]).
    pub fn pointer_mut(&mut self, path: &str) -> (r: Option<&mut Value>)
        ensures
            match pointed_value(old(self)@, path@) {
                Some(t) => r is Some && (*(r->Some_0))@ == t && final(self)@ == value_set_at(
                    old(self)@,
                    path_tokens(path@)->0,
                    (*final(r->Some_0))@,
                ),
                None => r is None && final(self)@ == old(self)@,
            },
    {
        proof {
            lemma_pointed_value(self@, path@);
        }
        let ts = match tokens(path) {
            Some(ts) => ts,
            None => {
                return None;
            },
        };
        proof {
            assert(token_texts(ts@) =~= path_tokens(path@)->0);
            assert(token_texts(ts@).skip(0) =~= token_texts(ts@));
        }
        value_at_mut(self, &ts, 0)
    }
}


/// Members with the same keys in the same places are found at the same
/// place.
pub(crate) proof fn lemma_member_index_keys(ms: Seq<EntryView>, ms2: Seq<EntryView>, key: Seq<char>)
    requires
        ms.len() == ms2.len(),
        forall|j: int| 0 <= j < ms.len() ==> #[trigger] ms2[j].key == ms[j].key,
    ensures
        member_index(ms2, key) == member_index(ms, key),
{
    lemma_member_index(ms, key);
    lemma_member_index(ms2, key);
    let a = member_index(ms, key);
    let b = member_index(ms2, key);
    if a >= 0 && (b < 0 || a < b) {
        assert(ms2[a].key == ms[a].key);
    }
    if b >= 0 && (a < 0 || b < a) {
        assert(ms2[b].key == ms[b].key);
    }
}

/// After the node a token selects is replaced, the token selects the new
/// node.
pub proof fn lemma_child_of_with_child(v: ValueView, token: Seq<char>, c2: NodeView)
    requires
        child_of(v, token) is Some,
    ensures
        child_of(with_child(v, token, c2), token) == Some(c2),
{
    let key = decoded(token);
    if let ValueView::Object(ms) = v {
        let i = member_index(ms, key);
        lemma_member_index(ms, key);
        let ms2 = ms.update(
            i,
            EntryView { key: ms[i].key, key_trivia: ms[i].key_trivia, value: c2 },
        );
        assert forall|j: int| 0 <= j < ms.len() implies #[trigger] ms2[j].key == ms[j].key by {}
        lemma_member_index_keys(ms, ms2, key);
    }
}

/// Reading back a write through a path: where the tokens lead to a value,
/// after it is replaced by `new` they lead to `new`.
pub proof fn lemma_value_write_read(v: ValueView, ts: Seq<Seq<char>>, new: ValueView)
    requires
        value_at(v, ts) is Some,
    ensures
        value_at(value_set_at(v, ts, new), ts) == Some(new),
    decreases ts.len(),
{
    if ts.len() > 0 {
        let c = child_of(v, ts[0])->Some_0;
        let c2 = NodeView {
            value: value_set_at(c.value, ts.drop_first(), new),
            trivia: c.trivia,
            comma: c.comma,
        };
        lemma_child_of_with_child(v, ts[0], c2);
        lemma_value_write_read(c.value, ts.drop_first(), new);
    }
}

/// Reading back a write through [`Value::pointer_mut`]: where `path` points
/// to a value, after that value is replaced by `new`, `path` points to
/// `new`.
pub proof fn lemma_pointer_write_read(v: ValueView, path: Seq<char>, new: ValueView)
    requires
        pointed_value(v, path) is Some,
    ensures
        pointed_value(value_set_at(v, path_tokens(path)->0, new), path) == Some(new),
{
    lemma_pointed_value(v, path);
    lemma_pointed_value(value_set_at(v, path_tokens(path)->0, new), path);
    lemma_value_write_read(v, path_tokens(path)->0, new);
}

/// Reading back a write through [`Node::pointer_mut`]: where `path` points
/// to a node, after that node is replaced by `new`, `path` points to `new`.
pub proof fn lemma_node_pointer_write_read(n: NodeView, path: Seq<char>, new: NodeView)
    requires
        pointed_node(n, path) is Some,
    ensures
        pointed_node(node_set_at(n, path_tokens(path)->0, new), path) == Some(new),
{
    lemma_node_write_read(n, path_tokens(path)->0, new);
}

proof fn lemma_node_write_read(n: NodeView, ts: Seq<Seq<char>>, new: NodeView)
    requires
        node_at(n, ts) is Some,
    ensures
        node_at(node_set_at(n, ts, new), ts) == Some(new),
    decreases ts.len(),
{
    if ts.len() > 0 {
        let c = child_of(n.value, ts[0])->Some_0;
        let c2 = node_set_at(c, ts.drop_first(), new);
        lemma_child_of_with_child(n.value, ts[0], c2);
        lemma_node_write_read(c, ts.drop_first(), new);
    }
}


/// Writing back the value the tokens lead to leaves `v` as it was.
pub proof fn lemma_value_set_same(v: ValueView, ts: Seq<Seq<char>>)
    requires
        value_at(v, ts) is Some,
    ensures
        value_set_at(v, ts, value_at(v, ts)->Some_0) == v,
    decreases ts.len(),
{
    if ts.len() > 0 {
        let c = child_of(v, ts[0])->Some_0;
        lemma_value_set_same(c.value, ts.drop_first());
        assert(NodeView {
            value: value_set_at(c.value, ts.drop_first(), value_at(v, ts)->Some_0),
            trivia: c.trivia,
            comma: c.comma,
        } == c);
        lemma_with_child_same(v, ts[0]);
    }
}


/// Replacing the node a token selects twice is replacing it with the last.
proof fn lemma_with_child_twice(v: ValueView, token: Seq<char>, c1: NodeView, c2: NodeView)
    requires
        child_of(v, token) is Some,
    ensures
        with_child(with_child(v, token, c1), token, c2) == with_child(v, token, c2),
{
    let key = decoded(token);
    match v {
        ValueView::Object(ms) => {
            let i = member_index(ms, key);
            lemma_member_index(ms, key);
            let ms1 = ms.update(
                i,
                EntryView { key: ms[i].key, key_trivia: ms[i].key_trivia, value: c1 },
            );
            assert forall|j: int| 0 <= j < ms.len() implies #[trigger] ms1[j].key == ms[j].key by {}
            lemma_member_index_keys(ms, ms1, key);
            assert(ms1.update(
                i,
                EntryView { key: ms1[i].key, key_trivia: ms1[i].key_trivia, value: c2 },
            ) =~= ms.update(
                i,
                EntryView { key: ms[i].key, key_trivia: ms[i].key_trivia, value: c2 },
            ));
        },
        ValueView::Array(items) => {
            let i = parse_usize_text(key)->Some_0;
            assert(items.update(i as int, c1).update(i as int, c2) =~= items.update(i as int, c2));
        },
        _ => {},
    }
}

/// Writing twice through the same path is writing the last value.
pub proof fn lemma_value_set_twice(v: ValueView, ts: Seq<Seq<char>>, a: ValueView, b: ValueView)
    requires
        value_at(v, ts) is Some,
    ensures
        value_set_at(value_set_at(v, ts, a), ts, b) == value_set_at(v, ts, b),
    decreases ts.len(),
{
    if ts.len() > 0 {
        let c = child_of(v, ts[0])->Some_0;
        let ca = NodeView {
            value: value_set_at(c.value, ts.drop_first(), a),
            trivia: c.trivia,
            comma: c.comma,
        };
        let cb = NodeView {
            value: value_set_at(c.value, ts.drop_first(), b),
            trivia: c.trivia,
            comma: c.comma,
        };
        lemma_child_of_with_child(v, ts[0], ca);
        lemma_value_set_twice(c.value, ts.drop_first(), a, b);
        assert(NodeView {
            value: value_set_at(ca.value, ts.drop_first(), b),
            trivia: ca.trivia,
            comma: ca.comma,
        } == cb);
        lemma_with_child_twice(v, ts[0], ca, cb);
    }
}

} // verus!
