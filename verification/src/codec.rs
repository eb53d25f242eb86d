//! The snapshot format: the whole task list as one structured text — an
//! object with the two named array fields `pending` and `done`, each an
//! array of objects with the string fields `title` and `status` — and its
//! parser. Decoding an encoded list gives the list back exactly.

use vstd::prelude::*;
use crate::store::ItemView;
use crate::store::ListView;
use crate::store::TodoItem;
use crate::store::TodoList;
use crate::store::items_view;

verus! {

// ---------------------------------------------------------------------------
// The encoding, as a mathematical function on views.
// ---------------------------------------------------------------------------
/// How one character is written inside a quoted string: the quote and the
/// backslash get a backslash before them, every other character stands as
/// itself.
pub open spec fn esc_char(c: char) -> Seq<char> {
    if c == '"' || c == '\\' {
        seq!['\\', c]
    } else {
        seq![c]
    }
}

/// The body of a quoted string: each character escaped, in order.
pub open spec fn esc(s: Seq<char>) -> Seq<char>
    decreases s.len(),
{
    if s.len() == 0 {
        Seq::empty()
    } else {
        esc_char(s[0]) + esc(s.drop_first())
    }
}

/// The opening of a task object up to and including the quote that starts
/// the title: `{"title":"`.
pub open spec fn lit_title() -> Seq<char> {
    seq!['{', '"', 't', 'i', 't', 'l', 'e', '"', ':', '"']
}

/// Between the title's closing quote and the quote that starts the status:
/// `,"status":"`.
pub open spec fn lit_status() -> Seq<char> {
    seq![',', '"', 's', 't', 'a', 't', 'u', 's', '"', ':', '"']
}

/// The opening of the snapshot up to the pending array: `{"pending":`.
pub open spec fn lit_pending() -> Seq<char> {
    seq!['{', '"', 'p', 'e', 'n', 'd', 'i', 'n', 'g', '"', ':']
}

/// Between the pending array and the done array: `,"done":`.
pub open spec fn lit_done() -> Seq<char> {
    seq![',', '"', 'd', 'o', 'n', 'e', '"', ':']
}

/// One task as an object with the two string fields.
pub open spec fn enc_item(it: ItemView) -> Seq<char> {
    lit_title() + esc(it.title) + seq!['"'] + lit_status() + esc(it.status) + seq!['"'] + seq![
        '}',
    ]
}

/// The tasks after the first one, each preceded by a comma.
pub open spec fn enc_items_rest(s: Seq<ItemView>) -> Seq<char>
    decreases s.len(),
{
    if s.len() == 0 {
        Seq::empty()
    } else {
        seq![','] + enc_item(s[0]) + enc_items_rest(s.drop_first())
    }
}

/// A task sequence as an array of task objects.
pub open spec fn enc_array(s: Seq<ItemView>) -> Seq<char> {
    if s.len() == 0 {
        seq!['[', ']']
    } else {
        seq!['['] + enc_item(s[0]) + enc_items_rest(s.drop_first()) + seq![']']
    }
}

/// The whole snapshot.
pub open spec fn enc_store(v: ListView) -> Seq<char> {
    lit_pending() + enc_array(v.pending) + lit_done() + enc_array(v.done) + seq!['}']
}

// ---------------------------------------------------------------------------
// The parser, as a mathematical function on character sequences. Each piece
// returns what it read and the unread remainder; the parser accepts exactly
// the canonical encodings.
// ---------------------------------------------------------------------------
/// The remainder of `t` after the expected prefix `p`, if `t` starts with it.
pub open spec fn strip(t: Seq<char>, p: Seq<char>) -> Option<Seq<char>> {
    if p.len() <= t.len() && t.subrange(0, p.len() as int) == p {
        Some(t.skip(p.len() as int))
    } else {
        None
    }
}

/// Reads a quoted string's body up to and over its closing quote, undoing
/// the escapes: a backslash takes the next character literally.
pub open spec fn parse_str_body(t: Seq<char>) -> Option<(Seq<char>, Seq<char>)>
    decreases t.len(),
{
    if t.len() == 0 {
        None
    } else if t[0] == '"' {
        Some((Seq::empty(), t.drop_first()))
    } else if t[0] == '\\' {
        if t.len() < 2 {
            None
        } else {
            match parse_str_body(t.skip(2)) {
                Some(p) => Some((seq![t[1]] + p.0, p.1)),
                None => None,
            }
        }
    } else {
        match parse_str_body(t.drop_first()) {
            Some(p) => Some((seq![t[0]] + p.0, p.1)),
            None => None,
        }
    }
}

/// Reads one task object.
pub open spec fn parse_item(t: Seq<char>) -> Option<(ItemView, Seq<char>)> {
    match strip(t, lit_title()) {
        Some(t1) => match parse_str_body(t1) {
            Some(pt) => match strip(pt.1, lit_status()) {
                Some(t2) => match parse_str_body(t2) {
                    Some(ps) => match strip(ps.1, seq!['}']) {
                        Some(t3) => Some((ItemView { title: pt.0, status: ps.0 }, t3)),
                        None => None,
                    },
                    None => None,
                },
                None => None,
            },
            None => None,
        },
        None => None,
    }
}

/// After the first task of an array: either the closing bracket, or a comma
/// and a further task, repeated.
pub open spec fn parse_arr_rest(t: Seq<char>) -> Option<(Seq<ItemView>, Seq<char>)>
    decreases t.len(),
{
    if t.len() == 0 {
        None
    } else if t[0] == ']' {
        Some((Seq::empty(), t.drop_first()))
    } else if t[0] == ',' {
        match parse_item(t.drop_first()) {
            Some(pi) => if pi.1.len() < t.len() {
                match parse_arr_rest(pi.1) {
                    Some(pr) => Some((seq![pi.0] + pr.0, pr.1)),
                    None => None,
                }
            } else {
                None
            },
            None => None,
        }
    } else {
        None
    }
}

/// Reads a whole task array.
pub open spec fn parse_array(t: Seq<char>) -> Option<(Seq<ItemView>, Seq<char>)> {
    if t.len() == 0 || t[0] != '[' {
        None
    } else {
        let t1 = t.drop_first();
        if t1.len() > 0 && t1[0] == ']' {
            Some((Seq::empty(), t1.drop_first()))
        } else {
            match parse_item(t1) {
                Some(pi) => match parse_arr_rest(pi.1) {
                    Some(pr) => Some((seq![pi.0] + pr.0, pr.1)),
                    None => None,
                },
                None => None,
            }
        }
    }
}

/// Reads a whole snapshot; the closing brace must end the text.
pub open spec fn parse_store(t: Seq<char>) -> Option<ListView> {
    match strip(t, lit_pending()) {
        Some(t1) => match parse_array(t1) {
            Some(pp) => match strip(pp.1, lit_done()) {
                Some(t2) => match parse_array(t2) {
                    Some(pd) => if pd.1 == seq!['}'] {
                        Some(ListView { pending: pp.0, done: pd.0 })
                    } else {
                        None
                    },
                    None => None,
                },
                None => None,
            },
            None => None,
        },
        None => None,
    }
}

// ---------------------------------------------------------------------------
// The parser undoes the encoder.
// ---------------------------------------------------------------------------
proof fn lemma_strip_prefix(p: Seq<char>, r: Seq<char>)
    ensures
        strip(p + r, p) == Some(r),
{
    let t = p + r;
    assert(t.subrange(0, p.len() as int) =~= p);
    assert(t.skip(p.len() as int) =~= r);
}

proof fn lemma_parse_str_body_esc(s: Seq<char>, r: Seq<char>)
    ensures
        parse_str_body(esc(s) + seq!['"'] + r) == Some((s, r)),
    decreases s.len(),
{
    let t = esc(s) + seq!['"'] + r;
    if s.len() == 0 {
        assert(esc(s) =~= Seq::<char>::empty());
        assert(t =~= seq!['"'] + r);
        assert(t[0] == '"');
        assert(t.drop_first() =~= r);
        assert(s =~= Seq::<char>::empty());
    } else {
        let c = s[0];
        let s2 = s.drop_first();
        let t2 = esc(s2) + seq!['"'] + r;
        lemma_parse_str_body_esc(s2, r);
        assert(esc(s) == esc_char(c) + esc(s2));
        if c == '"' || c == '\\' {
            assert(t =~= seq!['\\', c] + t2);
            assert(t.len() >= 2);
            assert(t[0] == '\\');
            assert(t[1] == c);
            assert(t.skip(2) =~= t2);
            assert(seq![c] + s2 =~= s);
        } else {
            assert(t =~= seq![c] + t2);
            assert(t[0] == c);
            assert(t.drop_first() =~= t2);
            assert(seq![c] + s2 =~= s);
        }
    }
}

proof fn lemma_parse_item_enc(it: ItemView, r: Seq<char>)
    ensures
        parse_item(enc_item(it) + r) == Some((it, r)),
{
    let t = enc_item(it) + r;
    let r3 = seq!['}'] + r;
    let r2 = esc(it.status) + seq!['"'] + r3;
    let r1 = lit_status() + r2;
    let a = esc(it.title) + seq!['"'] + r1;
    assert(t =~= lit_title() + a);
    lemma_strip_prefix(lit_title(), a);
    lemma_parse_str_body_esc(it.title, r1);
    lemma_strip_prefix(lit_status(), r2);
    assert(r1 =~= lit_status() + r2);
    lemma_parse_str_body_esc(it.status, r3);
    lemma_strip_prefix(seq!['}'], r);
    assert(r3 =~= seq!['}'] + r);
    assert(ItemView { title: it.title, status: it.status } =~= it);
}

proof fn lemma_parse_arr_rest_enc(s: Seq<ItemView>, r: Seq<char>)
    ensures
        parse_arr_rest(enc_items_rest(s) + seq![']'] + r) == Some((s, r)),
    decreases s.len(),
{
    let t = enc_items_rest(s) + seq![']'] + r;
    if s.len() == 0 {
        assert(enc_items_rest(s) =~= Seq::<char>::empty());
        assert(t =~= seq![']'] + r);
        assert(t[0] == ']');
        assert(t.drop_first() =~= r);
        assert(s =~= Seq::<ItemView>::empty());
    } else {
        let it = s[0];
        let s2 = s.drop_first();
        let rest = enc_items_rest(s2) + seq![']'] + r;
        assert(enc_items_rest(s) == seq![','] + enc_item(it) + enc_items_rest(s2));
        assert(t =~= seq![','] + (enc_item(it) + rest));
        assert(t[0] == ',');
        assert(t.drop_first() =~= enc_item(it) + rest);
        lemma_parse_item_enc(it, rest);
        assert(rest.len() < t.len());
        lemma_parse_arr_rest_enc(s2, r);
        assert(seq![it] + s2 =~= s);
    }
}

proof fn lemma_parse_array_enc(s: Seq<ItemView>, r: Seq<char>)
    ensures
        parse_array(enc_array(s) + r) == Some((s, r)),
{
    let t = enc_array(s) + r;
    if s.len() == 0 {
        assert(t =~= seq!['[', ']'] + r);
        assert(t[0] == '[');
        let t1 = t.drop_first();
        assert(t1 =~= seq![']'] + r);
        assert(t1[0] == ']');
        assert(t1.drop_first() =~= r);
        assert(s =~= Seq::<ItemView>::empty());
    } else {
        let it = s[0];
        let s2 = s.drop_first();
        let rest = enc_items_rest(s2) + seq![']'] + r;
        assert(t =~= seq!['['] + (enc_item(it) + rest));
        assert(t[0] == '[');
        let t1 = t.drop_first();
        assert(t1 =~= enc_item(it) + rest);
        assert(enc_item(it)[0] == '{');
        assert(t1.len() > 0 && t1[0] == '{');
        lemma_parse_item_enc(it, rest);
        lemma_parse_arr_rest_enc(s2, r);
        assert(seq![it] + s2 =~= s);
    }
}

// ---------------------------------------------------------------------------
// The executable encoder.
// ---------------------------------------------------------------------------
/// Relies on `String::push`: appends exactly the one character.
#[verifier::external_body]
fn push_char(s: &mut String, c: char)
    ensures
        final(s)@ == old(s)@.push(c),
{
    s.push(c)
}

proof fn lemma_esc_snoc(s: Seq<char>, c: char)
    ensures
        esc(s.push(c)) == esc(s) + esc_char(c),
    decreases s.len(),
{
    if s.len() == 0 {
        assert(s.push(c)[0] == c);
        assert(s.push(c).drop_first() =~= Seq::<char>::empty());
        assert(esc(Seq::<char>::empty()) == Seq::<char>::empty());
        assert(esc(s.push(c)) == esc_char(c) + esc(Seq::<char>::empty()));
        assert(esc(s.push(c)) =~= esc(s) + esc_char(c));
    } else {
        lemma_esc_snoc(s.drop_first(), c);
        assert(s.push(c)[0] == s[0]);
        assert(s.push(c).drop_first() =~= s.drop_first().push(c));
        assert(esc(s.push(c)) == esc_char(s[0]) + esc(s.drop_first().push(c)));
        assert(esc(s.push(c)) == esc_char(s[0]) + (esc(s.drop_first()) + esc_char(c)));
        assert(esc(s) == esc_char(s[0]) + esc(s.drop_first()));
        assert(esc(s.push(c)) =~= esc(s) + esc_char(c));
    }
}

proof fn lemma_enc_items_rest_snoc(s: Seq<ItemView>, it: ItemView)
    ensures
        enc_items_rest(s.push(it)) == enc_items_rest(s) + seq![','] + enc_item(it),
    decreases s.len(),
{
    if s.len() == 0 {
        assert(s.push(it)[0] == it);
        assert(s.push(it).drop_first() =~= Seq::<ItemView>::empty());
        assert(enc_items_rest(Seq::<ItemView>::empty()) == Seq::<char>::empty());
        assert(enc_items_rest(s.push(it)) == seq![','] + enc_item(it) + enc_items_rest(
            Seq::<ItemView>::empty(),
        ));
        assert(enc_items_rest(s.push(it)) =~= enc_items_rest(s) + seq![','] + enc_item(it));
    } else {
        lemma_enc_items_rest_snoc(s.drop_first(), it);
        assert(s.push(it)[0] == s[0]);
        assert(s.push(it).drop_first() =~= s.drop_first().push(it));
        assert(enc_items_rest(s.push(it)) == seq![','] + enc_item(s[0]) + enc_items_rest(
            s.drop_first().push(it),
        ));
        assert(enc_items_rest(s.push(it)) == seq![','] + enc_item(s[0]) + (enc_items_rest(
            s.drop_first(),
        ) + seq![','] + enc_item(it)));
        assert(enc_items_rest(s) == seq![','] + enc_item(s[0]) + enc_items_rest(s.drop_first()));
        assert(enc_items_rest(s.push(it)) =~= enc_items_rest(s) + seq![','] + enc_item(it));
    }
}

fn append_escaped(out: &mut String, s: &str)
    ensures
        final(out)@ == old(out)@ + esc(s@),
{
    let len = s.unicode_len();
    let mut i: usize = 0;
    while i < len
        invariant
            len == s@.len(),
            i <= len,
            out@ == old(out)@ + esc(s@.subrange(0, i as int)),
        decreases len - i,
    {
        let c = s.get_char(i);
        if c == '"' || c == '\\' {
            push_char(out, '\\');
            push_char(out, c);
        } else {
            push_char(out, c);
        }
        proof {
            lemma_esc_snoc(s@.subrange(0, i as int), c);
            assert(s@.subrange(0, i as int).push(c) =~= s@.subrange(0, (i + 1) as int));
            assert(out@ =~= old(out)@ + esc(s@.subrange(0, (i + 1) as int)));
        }
        i = i + 1;
    }
    proof {
        assert(s@.subrange(0, len as int) =~= s@);
    }
}

fn encode_item_into(out: &mut String, it: &TodoItem)
    ensures
        final(out)@ == old(out)@ + enc_item(it@),
{
    out.append("{\"title\":\"");
    proof {
        reveal_strlit("{\"title\":\"");
        assert("{\"title\":\""@ =~= lit_title());
    }
    append_escaped(out, it.title.as_str());
    push_char(out, '"');
    out.append(",\"status\":\"");
    proof {
        reveal_strlit(",\"status\":\"");
        assert(",\"status\":\""@ =~= lit_status());
    }
    append_escaped(out, it.status.as_str());
    push_char(out, '"');
    push_char(out, '}');
    proof {
        assert(out@ =~= old(out)@ + enc_item(it@));
    }
}

fn encode_array_into(out: &mut String, v: &Vec<TodoItem>)
    ensures
        final(out)@ == old(out)@ + enc_array(items_view(v@)),
{
    let ghost s = items_view(v@);
    push_char(out, '[');
    if v.len() == 0 {
        push_char(out, ']');
        proof {
            assert(out@ =~= old(out)@ + enc_array(s));
        }
        return ;
    }
    encode_item_into(out, &v[0]);
    proof {
        assert(v@[0]@ == s[0]);
        assert(enc_items_rest(s.subrange(1, 1)) =~= Seq::<char>::empty());
        assert(out@ =~= old(out)@ + seq!['['] + enc_item(s[0]) + enc_items_rest(
            s.subrange(1, 1),
        ));
    }
    let mut i: usize = 1;
    while i < v.len()
        invariant
            1 <= i <= v.len(),
            s == items_view(v@),
            s.len() == v@.len(),
            out@ == old(out)@ + seq!['['] + enc_item(s[0]) + enc_items_rest(
                s.subrange(1, i as int),
            ),
        decreases v.len() - i,
    {
        push_char(out, ',');
        encode_item_into(out, &v[i]);
        proof {
            lemma_enc_items_rest_snoc(s.subrange(1, i as int), s[i as int]);
            assert(s.subrange(1, i as int).push(s[i as int]) =~= s.subrange(1, (i + 1) as int));
            assert(v@[i as int]@ == s[i as int]);
            assert(out@ =~= old(out)@ + seq!['['] + enc_item(s[0]) + enc_items_rest(
                s.subrange(1, (i + 1) as int),
            ));
        }
        i = i + 1;
    }
    push_char(out, ']');
    proof {
        assert(s.subrange(1, s.len() as int) =~= s.drop_first());
        assert(out@ =~= old(out)@ + enc_array(s));
    }
}

/// The task list as one snapshot text, ready to be written out whole.
pub fn encode(list: &TodoList) -> (r: String)
    ensures
        r@ == enc_store(list@),
{
    let mut out = String::new();
    out.append("{\"pending\":");
    proof {
        reveal_strlit("{\"pending\":");
        assert("{\"pending\":"@ =~= lit_pending());
    }
    encode_array_into(&mut out, &list.pending);
    out.append(",\"done\":");
    proof {
        reveal_strlit(",\"done\":");
        assert(",\"done\":"@ =~= lit_done());
    }
    encode_array_into(&mut out, &list.done);
    push_char(&mut out, '}');
    proof {
        assert(out@ =~= enc_store(list@));
    }
    out
}

// ---------------------------------------------------------------------------
// The executable decoder.
// ---------------------------------------------------------------------------
fn expect_lit(s: &str, pos: usize, pat: &str) -> (r: Option<usize>)
    requires
        pos <= s@.len(),
    ensures
        match r {
            Some(end) => {
                &&& pos <= end <= s@.len()
                &&& strip(s@.skip(pos as int), pat@) == Some(s@.skip(end as int))
            },
            None => strip(s@.skip(pos as int), pat@) is None,
        },
{
    let slen = s.unicode_len();
    let plen = pat.unicode_len();
    if slen - pos < plen {
        proof {
            assert(s@.skip(pos as int).len() < pat@.len());
        }
        return None;
    }
    let mut i: usize = 0;
    while i < plen
        invariant
            slen == s@.len(),
            plen == pat@.len(),
            pos + plen <= slen,
            i <= plen,
            forall|j: int| 0 <= j < i ==> s@[pos + j] == pat@[j],
        decreases plen - i,
    {
        if s.get_char(pos + i) != pat.get_char(i) {
            proof {
                let t = s@.skip(pos as int);
                assert(t.subrange(0, plen as int)[i as int] == s@[pos + i]);
                assert(t.subrange(0, plen as int) != pat@);
            }
            return None;
        }
        i = i + 1;
    }
    proof {
        let t = s@.skip(pos as int);
        assert(t.subrange(0, plen as int) =~= pat@);
        assert(t.skip(plen as int) =~= s@.skip((pos + plen) as int));
    }
    Some(pos + plen)
}

fn parse_str_body_exec(s: &str, pos: usize) -> (r: Option<(String, usize)>)
    requires
        pos <= s@.len(),
    ensures
        match r {
            Some(p) => {
                &&& pos <= p.1 <= s@.len()
                &&& parse_str_body(s@.skip(pos as int)) == Some((p.0@, s@.skip(p.1 as int)))
            },
            None => parse_str_body(s@.skip(pos as int)) is None,
        },
{
    let slen = s.unicode_len();
    let mut out = String::new();
    let mut i: usize = pos;
    loop
        invariant
            slen == s@.len(),
            pos <= i <= slen,
            parse_str_body(s@.skip(pos as int)) == (match parse_str_body(s@.skip(i as int)) {
                Some(p) => Some((out@ + p.0, p.1)),
                None => None::<(Seq<char>, Seq<char>)>,
            }),
        decreases slen - i,
    {
        if i == slen {
            proof {
                assert(s@.skip(i as int).len() == 0);
            }
            return None;
        }
        let c = s.get_char(i);
        if c == '"' {
            proof {
                let t = s@.skip(i as int);
                assert(t[0] == '"');
                assert(t.drop_first() =~= s@.skip((i + 1) as int));
                assert(parse_str_body(t) == Some(
                    (Seq::<char>::empty(), s@.skip((i + 1) as int)),
                ));
                assert(out@ + Seq::<char>::empty() =~= out@);
            }
            return Some((out, i + 1));
        }
        if c == '\\' {
            if i + 1 == slen {
                proof {
                    let t = s@.skip(i as int);
                    assert(t.len() == 1);
                    assert(t[0] == '\\');
                }
                return None;
            }
            let c2 = s.get_char(i + 1);
            let ghost prev = out@;
            push_char(&mut out, c2);
            proof {
                let t = s@.skip(i as int);
                let t1 = s@.skip((i + 2) as int);
                assert(t[0] == '\\');
                assert(t.len() >= 2);
                assert(t[1] == c2);
                assert(t.skip(2) =~= t1);
                match parse_str_body(t1) {
                    Some(p) => {
                        assert(parse_str_body(t) == Some((seq![c2] + p.0, p.1)));
                        assert(out@ + p.0 =~= prev + (seq![c2] + p.0));
                    },
                    None => {
                        assert(parse_str_body(t) is None);
                    },
                }
            }
            i = i + 2;
        } else {
            let ghost prev = out@;
            push_char(&mut out, c);
            proof {
                let t = s@.skip(i as int);
                let t1 = s@.skip((i + 1) as int);
                assert(t[0] == c);
                assert(t.drop_first() =~= t1);
                match parse_str_body(t1) {
                    Some(p) => {
                        assert(parse_str_body(t) == Some((seq![c] + p.0, p.1)));
                        assert(out@ + p.0 =~= prev + (seq![c] + p.0));
                    },
                    None => {
                        assert(parse_str_body(t) is None);
                    },
                }
            }
            i = i + 1;
        }
    }
}

fn parse_item_exec(s: &str, pos: usize) -> (r: Option<(TodoItem, usize)>)
    requires
        pos <= s@.len(),
    ensures
        match r {
            Some(p) => {
                &&& pos <= p.1 <= s@.len()
                &&& parse_item(s@.skip(pos as int)) == Some((p.0@, s@.skip(p.1 as int)))
            },
            None => parse_item(s@.skip(pos as int)) is None,
        },
{
    proof {
        reveal_strlit("{\"title\":\"");
        assert("{\"title\":\""@ =~= lit_title());
    }
    let i1 = match expect_lit(s, pos, "{\"title\":\"") {
        Some(i) => i,
        None => {
            return None;
        },
    };
    let (title, i2) = match parse_str_body_exec(s, i1) {
        Some(p) => p,
        None => {
            return None;
        },
    };
    proof {
        reveal_strlit(",\"status\":\"");
        assert(",\"status\":\""@ =~= lit_status());
    }
    let i3 = match expect_lit(s, i2, ",\"status\":\"") {
        Some(i) => i,
        None => {
            return None;
        },
    };
    let (status, i4) = match parse_str_body_exec(s, i3) {
        Some(p) => p,
        None => {
            return None;
        },
    };
    proof {
        reveal_strlit("}");
        assert("}"@ =~= seq!['}']);
    }
    let i5 = match expect_lit(s, i4, "}") {
        Some(i) => i,
        None => {
            return None;
        },
    };
    let item = TodoItem { title, status };
    proof {
        assert(parse_item(s@.skip(pos as int)) == Some((item@, s@.skip(i5 as int))));
    }
    Some((item, i5))
}

fn parse_array_exec(s: &str, pos: usize) -> (r: Option<(Vec<TodoItem>, usize)>)
    requires
        pos <= s@.len(),
    ensures
        match r {
            Some(p) => {
                &&& pos <= p.1 <= s@.len()
                &&& parse_array(s@.skip(pos as int)) == Some(
                    (items_view(p.0@), s@.skip(p.1 as int)),
                )
            },
            None => parse_array(s@.skip(pos as int)) is None,
        },
{
    let slen = s.unicode_len();
    if pos == slen {
        proof {
            assert(s@.skip(pos as int).len() == 0);
        }
        return None;
    }
    if s.get_char(pos) != '[' {
        return None;
    }
    proof {
        assert(s@.skip(pos as int).drop_first() =~= s@.skip((pos + 1) as int));
    }
    if pos + 1 < slen && s.get_char(pos + 1) == ']' {
        let empty: Vec<TodoItem> = Vec::new();
        proof {
            let t1 = s@.skip((pos + 1) as int);
            assert(t1[0] == ']');
            assert(t1.drop_first() =~= s@.skip((pos + 2) as int));
            assert(items_view(empty@) =~= Seq::<ItemView>::empty());
        }
        return Some((empty, pos + 2));
    }
    let (first, start) = match parse_item_exec(s, pos + 1) {
        Some(p) => p,
        None => {
            proof {
                let t1 = s@.skip((pos + 1) as int);
                assert(!(t1.len() > 0 && t1[0] == ']'));
            }
            return None;
        },
    };
    let mut acc: Vec<TodoItem> = Vec::new();
    acc.push(first);
    let mut i: usize = start;
    proof {
        assert(items_view(acc@) =~= seq![first@]);
        let t1 = s@.skip((pos + 1) as int);
        assert(!(t1.len() > 0 && t1[0] == ']'));
        match parse_arr_rest(s@.skip(i as int)) {
            Some(q) => {
                assert(items_view(acc@) + q.0 =~= seq![first@] + q.0);
            },
            None => {},
        }
    }
    loop
        invariant
            slen == s@.len(),
            pos < i <= slen,
            parse_array(s@.skip(pos as int)) == (match parse_arr_rest(s@.skip(i as int)) {
                Some(p) => Some((items_view(acc@) + p.0, p.1)),
                None => None::<(Seq<ItemView>, Seq<char>)>,
            }),
        decreases slen - i,
    {
        if i == slen {
            proof {
                assert(s@.skip(i as int).len() == 0);
            }
            return None;
        }
        let c = s.get_char(i);
        if c == ']' {
            proof {
                let t = s@.skip(i as int);
                assert(t[0] == ']');
                assert(t.drop_first() =~= s@.skip((i + 1) as int));
                assert(parse_arr_rest(t) == Some(
                    (Seq::<ItemView>::empty(), s@.skip((i + 1) as int)),
                ));
                assert(items_view(acc@) + Seq::<ItemView>::empty() =~= items_view(acc@));
            }
            return Some((acc, i + 1));
        }
        if c != ',' {
            return None;
        }
        proof {
            assert(s@.skip(i as int).drop_first() =~= s@.skip((i + 1) as int));
        }
        let (it, j) = match parse_item_exec(s, i + 1) {
            Some(p) => p,
            None => {
                return None;
            },
        };
        let ghost prev = acc@;
        acc.push(it);
        proof {
            let t = s@.skip(i as int);
            assert(t[0] == ',');
            assert(s@.skip(j as int).len() < t.len());
            assert(items_view(acc@) =~= items_view(prev).push(it@));
            match parse_arr_rest(s@.skip(j as int)) {
                Some(q) => {
                    assert(parse_arr_rest(t) == Some((seq![it@] + q.0, q.1)));
                    assert(items_view(acc@) + q.0 =~= items_view(prev) + (seq![it@] + q.0));
                },
                None => {
                    assert(parse_arr_rest(t) is None);
                },
            }
        }
        i = j;
    }
}

/// The task list read back from a snapshot text: the one whose encoding the
/// text is, where the text is exactly such an encoding, and nothing
/// otherwise.
pub fn decode(s: &str) -> (r: Option<TodoList>)
    ensures
        match r {
            Some(list) => parse_store(s@) == Some(list@),
            None => parse_store(s@) is None,
        },
{
    proof {
        reveal_strlit("{\"pending\":");
        assert("{\"pending\":"@ =~= lit_pending());
        assert(s@.skip(0) =~= s@);
    }
    let i1 = match expect_lit(s, 0, "{\"pending\":") {
        Some(i) => i,
        None => {
            return None;
        },
    };
    let (pending, i2) = match parse_array_exec(s, i1) {
        Some(p) => p,
        None => {
            return None;
        },
    };
    proof {
        reveal_strlit(",\"done\":");
        assert(",\"done\":"@ =~= lit_done());
    }
    let i3 = match expect_lit(s, i2, ",\"done\":") {
        Some(i) => i,
        None => {
            return None;
        },
    };
    let (done, i4) = match parse_array_exec(s, i3) {
        Some(p) => p,
        None => {
            return None;
        },
    };
    let slen = s.unicode_len();
    if i4 < slen && slen - i4 == 1 && s.get_char(i4) == '}' {
        let list = TodoList { pending, done };
        proof {
            assert(s@.skip(i4 as int) =~= seq!['}']);
            assert(list@ =~= ListView {
                pending: items_view(pending@),
                done: items_view(done@),
            });
            assert(parse_store(s@) == Some(list@));
        }
        return Some(list);
    }
    proof {
        let t4 = s@.skip(i4 as int);
        if t4 == seq!['}'] {
            assert(t4.len() == 1);
            assert(t4[0] == seq!['}'][0]);
            assert(t4[0] == '}');
            assert(t4[0] == s@[i4 as int]);
            assert(false);
        }
    }
    None
}

/// Round trip: decoding an encoded task list gives back a list with the same
/// pending and done tasks, in the same order.
pub proof fn lemma_snapshot_round_trip(v: ListView)
    ensures
        parse_store(enc_store(v)) == Some(v),
{
    let t = enc_store(v);
    let r2 = enc_array(v.done) + seq!['}'];
    let r1 = lit_done() + r2;
    let a1 = enc_array(v.pending) + r1;
    assert(t =~= lit_pending() + a1);
    lemma_strip_prefix(lit_pending(), a1);
    lemma_parse_array_enc(v.pending, r1);
    lemma_strip_prefix(lit_done(), r2);
    assert(r1 =~= lit_done() + r2);
    lemma_parse_array_enc(v.done, seq!['}']);
    assert(ListView { pending: v.pending, done: v.done } =~= v);
}

} // verus!
