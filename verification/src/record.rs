use vstd::prelude::*;

use crate::commit::Commit;
use crate::derivation::{
    state_text, DerivationMetadata, DerivationState, FeatureMetadata, MetadataView,
};
use crate::text::is_prefix_of;

verus! {

// ---------------------------------------------------------------------------
// The wire form: a fixed sentinel comment block, then one JSON-shaped record.
// ---------------------------------------------------------------------------
/// The sentinel that marks a commit message as a derivation record.
pub open spec fn sentinel_text() -> Seq<char> {
    "# DO NOT EDIT OR REMOVE THIS COMMIT\nDERIVATION STATUS\n"@
}

/// A string character on the wire: the quote and the backslash carry an
/// escaping backslash, everything else stands as itself.
pub open spec fn esc_char(c: char) -> Seq<char> {
    if c == '"' || c == '\\' {
        seq!['\\', c]
    } else {
        seq![c]
    }
}

/// A whole string escaped.
pub open spec fn esc(s: Seq<char>) -> Seq<char>
    decreases s.len(),
{
    if s.len() == 0 {
        Seq::<char>::empty()
    } else {
        esc_char(s[0]) + esc(s.drop_first())
    }
}

pub open spec fn quoted(s: Seq<char>) -> Seq<char> {
    seq!['"'] + esc(s) + seq!['"']
}

pub open spec fn key_path() -> Seq<char> {
    seq!['{', '"', 'p', 'a', 't', 'h', '"', ':']
}

pub open spec fn key_id() -> Seq<char> {
    seq!['{', '"', 'i', 'd', '"', ':']
}

pub open spec fn key_state() -> Seq<char> {
    seq![',', '"', 's', 't', 'a', 't', 'e', '"', ':']
}

pub open spec fn key_completed() -> Seq<char> {
    seq![',', '"', 'c', 'o', 'm', 'p', 'l', 'e', 't', 'e', 'd', '"', ':']
}

pub open spec fn key_missing() -> Seq<char> {
    seq![',', '"', 'm', 'i', 's', 's', 'i', 'n', 'g', '"', ':']
}

pub open spec fn key_total() -> Seq<char> {
    seq![',', '"', 't', 'o', 't', 'a', 'l', '"', ':']
}

/// One feature on the wire.
pub open spec fn render_item(p: Seq<char>) -> Seq<char> {
    key_path() + quoted(p) + seq!['}']
}

/// A comma-separated run of features.
pub open spec fn render_items(v: Seq<Seq<char>>) -> Seq<char>
    decreases v.len(),
{
    if v.len() == 0 {
        Seq::<char>::empty()
    } else if v.len() == 1 {
        render_item(v[0])
    } else {
        render_item(v[0]) + seq![','] + render_items(v.drop_first())
    }
}

/// A bracketed feature list.
pub open spec fn render_list(v: Seq<Seq<char>>) -> Seq<char> {
    seq!['['] + render_items(v) + seq![']']
}

/// The record payload after the sentinel.
pub open spec fn render_metadata(v: MetadataView) -> Seq<char> {
    key_id() + quoted(v.id) + key_state() + quoted(state_text(v.state)) + key_completed()
        + render_list(v.completed) + key_missing() + render_list(v.missing) + key_total()
        + render_list(v.total) + seq!['}']
}

/// The whole commit message of a checkpoint.
pub open spec fn render_message(v: MetadataView) -> Seq<char> {
    sentinel_text() + render_metadata(v)
}

// ---------------------------------------------------------------------------
// The parser, as spec functions over a cursor.
// ---------------------------------------------------------------------------
/// Consumes the exact literal at position `i`.
pub open spec fn sp_expect(s: Seq<char>, i: int, lit: Seq<char>) -> Option<int> {
    if 0 <= i && i + lit.len() <= s.len() && s.subrange(i, i + lit.len()) == lit {
        Some(i + lit.len())
    } else {
        None
    }
}

/// Consumes escaped string content up to and including the closing quote.
pub open spec fn sp_chars(s: Seq<char>, i: int) -> Option<(Seq<char>, int)>
    decreases s.len() - i,
{
    if i < 0 || i >= s.len() {
        None
    } else if s[i] == '"' {
        Some((Seq::<char>::empty(), i + 1))
    } else if s[i] == '\\' {
        if i + 1 < s.len() && (s[i + 1] == '"' || s[i + 1] == '\\') {
            match sp_chars(s, i + 2) {
                Some((t, j)) => Some((seq![s[i + 1]] + t, j)),
                None => None,
            }
        } else {
            None
        }
    } else {
        match sp_chars(s, i + 1) {
            Some((t, j)) => Some((seq![s[i]] + t, j)),
            None => None,
        }
    }
}

/// Consumes a quoted string.
pub open spec fn sp_string(s: Seq<char>, i: int) -> Option<(Seq<char>, int)> {
    if 0 <= i < s.len() && s[i] == '"' {
        sp_chars(s, i + 1)
    } else {
        None
    }
}

/// Consumes one feature object.
pub open spec fn sp_item(s: Seq<char>, i: int) -> Option<(Seq<char>, int)> {
    match sp_expect(s, i, key_path()) {
        Some(j) => match sp_string(s, j) {
            Some((p, j2)) => match sp_expect(s, j2, seq!['}']) {
                Some(j3) => Some((p, j3)),
                None => None,
            },
            None => None,
        },
        None => None,
    }
}

/// Consumes a nonempty run of feature objects up to and including the
/// closing bracket.
pub open spec fn sp_items(s: Seq<char>, i: int) -> Option<(Seq<Seq<char>>, int)>
    decreases s.len() - i,
{
    if i < 0 || i > s.len() {
        None
    } else {
        match sp_item(s, i) {
            Some((p, j)) => if j <= i || j > s.len() {
                None
            } else if j < s.len() && s[j] == ',' {
                match sp_items(s, j + 1) {
                    Some((v, j2)) => Some((seq![p] + v, j2)),
                    None => None,
                }
            } else {
                match sp_expect(s, j, seq![']']) {
                    Some(j2) => Some((seq![p], j2)),
                    None => None,
                }
            },
            None => None,
        }
    }
}

/// Consumes a bracketed feature list.
pub open spec fn sp_list(s: Seq<char>, i: int) -> Option<(Seq<Seq<char>>, int)> {
    match sp_expect(s, i, seq!['[']) {
        Some(j) => if j < s.len() && s[j] == ']' {
            Some((Seq::<Seq<char>>::empty(), j + 1))
        } else {
            sp_items(s, j)
        },
        None => None,
    }
}

/// Consumes a quoted state name.
pub open spec fn sp_state(s: Seq<char>, i: int) -> Option<(DerivationState, int)> {
    match sp_string(s, i) {
        Some((t, j)) => if t == state_text(DerivationState::Starting) {
            Some((DerivationState::Starting, j))
        } else if t == state_text(DerivationState::InProgress) {
            Some((DerivationState::InProgress, j))
        } else if t == state_text(DerivationState::Finished) {
            Some((DerivationState::Finished, j))
        } else {
            None
        },
        None => None,
    }
}

/// Consumes the whole record payload.
pub open spec fn sp_metadata(s: Seq<char>, i: int) -> Option<(MetadataView, int)> {
    match sp_expect(s, i, key_id()) {
        Some(j1) => match sp_string(s, j1) {
            Some((id, j2)) => match sp_expect(s, j2, key_state()) {
                Some(j3) => match sp_state(s, j3) {
                    Some((st, j4)) => match sp_expect(s, j4, key_completed()) {
                        Some(j5) => match sp_list(s, j5) {
                            Some((completed, j6)) => match sp_expect(s, j6, key_missing()) {
                                Some(j7) => match sp_list(s, j7) {
                                    Some((missing, j8)) => match sp_expect(s, j8, key_total()) {
                                        Some(j9) => match sp_list(s, j9) {
                                            Some((total, j10)) => match sp_expect(
                                                s,
                                                j10,
                                                seq!['}'],
                                            ) {
                                                Some(j11) => Some(
                                                    (
                                                        MetadataView {
                                                            id,
                                                            state: st,
                                                            completed,
                                                            missing,
                                                            total,
                                                        },
                                                        j11,
                                                    ),
                                                ),
                                                None => None,
                                            },
                                            None => None,
                                        },
                                        None => None,
                                    },
                                    None => None,
                                },
                                None => None,
                            },
                            None => None,
                        },
                        None => None,
                    },
                    None => None,
                },
                None => None,
            },
            None => None,
        },
        None => None,
    }
}

/// What a commit message holds: not a record at all (no sentinel), a
/// malformed record (sentinel but unparseable payload), or the record.
pub open spec fn sp_message(msg: Seq<char>) -> Option<Option<MetadataView>> {
    if is_prefix_of(sentinel_text(), msg) {
        match sp_metadata(msg, sentinel_text().len() as int) {
            Some((v, j)) => if j == msg.len() {
                Some(Some(v))
            } else {
                Some(None)
            },
            None => Some(None),
        }
    } else {
        None
    }
}

// ---------------------------------------------------------------------------
// The round trip: whatever the writer produces, the parser reads back.
// ---------------------------------------------------------------------------
proof fn lemma_window_split(s: Seq<char>, i: int, a: Seq<char>, b: Seq<char>)
    requires
        0 <= i,
        i + a.len() + b.len() <= s.len(),
        s.subrange(i, i + a.len() + b.len()) == a + b,
    ensures
        s.subrange(i, i + a.len()) == a,
        s.subrange(i + a.len(), i + a.len() + b.len()) == b,
{
    assert forall|k: int| 0 <= k < a.len() implies s.subrange(i, i + a.len())[k] == a[k] by {
        assert(s.subrange(i, i + a.len() + b.len())[k] == (a + b)[k]);
    }
    assert(s.subrange(i, i + a.len()) =~= a);
    assert forall|k: int|
        0 <= k < b.len() implies s.subrange(i + a.len(), i + a.len() + b.len())[k] == b[k] by {
        let big = s.subrange(i, i + a.len() + b.len());
        assert(big[a.len() + k] == s[i + a.len() + k]);
        assert((a + b)[a.len() + k] == b[k]);
        assert(s.subrange(i + a.len(), i + a.len() + b.len())[k] == s[i + a.len() + k]);
    }
    assert(s.subrange(i + a.len(), i + a.len() + b.len()) =~= b);
}

proof fn lemma_sp_chars_render(s: Seq<char>, i: int, p: Seq<char>)
    requires
        0 <= i,
        i + esc(p).len() + 1 <= s.len(),
        s.subrange(i, i + esc(p).len()) == esc(p),
        s[i + esc(p).len()] == '"',
    ensures
        sp_chars(s, i) == Some((p, i + esc(p).len() + 1)),
    decreases p.len(),
{
    if p.len() == 0 {
        assert(esc(p) =~= Seq::<char>::empty());
        assert(s[i] == '"');
    } else {
        let c = p[0];
        let rest = p.drop_first();
        assert(esc(p) == esc_char(c) + esc(rest));
        lemma_window_split(s, i, esc_char(c), esc(rest));
        if c == '"' || c == '\\' {
            assert(s.subrange(i, i + 2)[0] == s[i]);
            assert(s.subrange(i, i + 2)[1] == s[i + 1]);
            assert(s[i] == '\\');
            assert(s[i + 1] == c);
            assert(s[i + 2 + esc(rest).len()] == '"');
            lemma_sp_chars_render(s, i + 2, rest);
            assert(seq![c] + rest =~= p);
        } else {
            assert(s.subrange(i, i + 1)[0] == s[i]);
            assert(s[i] == c);
            assert(s[i + 1 + esc(rest).len()] == '"');
            lemma_sp_chars_render(s, i + 1, rest);
            assert(seq![c] + rest =~= p);
        }
    }
}

proof fn lemma_sp_string_render(s: Seq<char>, i: int, p: Seq<char>)
    requires
        0 <= i,
        i + quoted(p).len() <= s.len(),
        s.subrange(i, i + quoted(p).len()) == quoted(p),
    ensures
        sp_string(s, i) == Some((p, i + quoted(p).len())),
{
    assert(quoted(p) =~= seq!['"'] + (esc(p) + seq!['"']));
    lemma_window_split(s, i, seq!['"'], esc(p) + seq!['"']);
    assert(s.subrange(i, i + 1)[0] == s[i]);
    assert(s[i] == '"');
    lemma_window_split(s, i + 1, esc(p), seq!['"']);
    assert(s.subrange(i + 1 + esc(p).len(), i + 1 + esc(p).len() + 1)[0] == s[i + 1 + esc(p).len()]);
    assert(s[i + 1 + esc(p).len()] == '"');
    lemma_sp_chars_render(s, i + 1, p);
}

proof fn lemma_sp_item_render(s: Seq<char>, i: int, p: Seq<char>)
    requires
        0 <= i,
        i + render_item(p).len() <= s.len(),
        s.subrange(i, i + render_item(p).len()) == render_item(p),
    ensures
        sp_item(s, i) == Some((p, i + render_item(p).len())),
{
    let rest1 = quoted(p) + seq!['}'];
    assert(render_item(p) =~= key_path() + rest1);
    lemma_window_split(s, i, key_path(), rest1);
    assert(sp_expect(s, i, key_path()) == Some(i + key_path().len()));
    let j = i + key_path().len();
    lemma_window_split(s, j, quoted(p), seq!['}']);
    lemma_sp_string_render(s, j, p);
    let j2 = j + quoted(p).len();
    assert(sp_expect(s, j2, seq!['}']) == Some(j2 + 1));
}

proof fn lemma_sp_items_render(s: Seq<char>, i: int, v: Seq<Seq<char>>)
    requires
        0 <= i,
        v.len() >= 1,
        i + render_items(v).len() + 1 <= s.len(),
        s.subrange(i, i + render_items(v).len() + 1) == render_items(v) + seq![']'],
    ensures
        sp_items(s, i) == Some((v, i + render_items(v).len() + 1)),
    decreases v.len(),
{
    if v.len() == 1 {
        assert(render_items(v) == render_item(v[0]));
        lemma_window_split(s, i, render_item(v[0]), seq![']']);
        lemma_sp_item_render(s, i, v[0]);
        let j = i + render_item(v[0]).len();
        assert(s.subrange(j, j + 1)[0] == s[j]);
        assert(s[j] == ']');
        assert(j > i);
        assert(sp_expect(s, j, seq![']']) == Some(j + 1));
        assert(seq![v[0]] =~= v);
    } else {
        let rest = v.drop_first();
        let tail = seq![','] + (render_items(rest) + seq![']']);
        assert(render_items(v) + seq![']'] =~= render_item(v[0]) + tail);
        lemma_window_split(s, i, render_item(v[0]), tail);
        lemma_sp_item_render(s, i, v[0]);
        let j = i + render_item(v[0]).len();
        lemma_window_split(s, j, seq![','], render_items(rest) + seq![']']);
        assert(s.subrange(j, j + 1)[0] == s[j]);
        assert(s[j] == ',');
        assert(j > i);
        lemma_sp_items_render(s, j + 1, rest);
        assert(seq![v[0]] + rest =~= v);
    }
}

proof fn lemma_sp_list_render(s: Seq<char>, i: int, v: Seq<Seq<char>>)
    requires
        0 <= i,
        i + render_list(v).len() <= s.len(),
        s.subrange(i, i + render_list(v).len()) == render_list(v),
    ensures
        sp_list(s, i) == Some((v, i + render_list(v).len())),
{
    assert(render_list(v) =~= seq!['['] + (render_items(v) + seq![']']));
    lemma_window_split(s, i, seq!['['], render_items(v) + seq![']']);
    assert(s.subrange(i, i + 1)[0] == s[i]);
    assert(s[i] == '[');
    assert(sp_expect(s, i, seq!['[']) == Some(i + 1));
    let j = i + 1;
    if v.len() == 0 {
        assert(render_items(v) =~= Seq::<char>::empty());
        assert(render_items(v) + seq![']'] =~= seq![']']);
        assert(s.subrange(j, j + 1)[0] == s[j]);
        assert(s[j] == ']');
        assert(v =~= Seq::<Seq<char>>::empty());
    } else {
        assert((render_items(v) + seq![']'])[0] == render_items(v)[0]);
        assert(render_items(v)[0] == render_item(v[0])[0]);
        assert(render_item(v[0])[0] == '{');
        assert(s.subrange(j, j + render_items(v).len() + 1)[0] == s[j]);
        assert(s[j] == '{');
        lemma_sp_items_render(s, j, v);
    }
}

#[verifier::rlimit(100)]
proof fn lemma_sp_metadata_render(s: Seq<char>, i: int, v: MetadataView)
    requires
        0 <= i,
        i + render_metadata(v).len() <= s.len(),
        s.subrange(i, i + render_metadata(v).len()) == render_metadata(v),
    ensures
        sp_metadata(s, i) == Some((v, i + render_metadata(v).len())),
{
    let r9 = seq!['}'];
    let r8 = render_list(v.total) + r9;
    let r7 = key_total() + r8;
    let r6 = render_list(v.missing) + r7;
    let r5 = key_missing() + r6;
    let r4 = render_list(v.completed) + r5;
    let r3 = key_completed() + r4;
    let r2 = quoted(state_text(v.state)) + r3;
    let r1 = key_state() + r2;
    let r0 = quoted(v.id) + r1;
    assert(render_metadata(v) =~= key_id() + r0);
    lemma_window_split(s, i, key_id(), r0);
    assert(sp_expect(s, i, key_id()) == Some(i + key_id().len()));
    let j1 = i + key_id().len();
    lemma_window_split(s, j1, quoted(v.id), r1);
    lemma_sp_string_render(s, j1, v.id);
    let j2 = j1 + quoted(v.id).len();
    lemma_window_split(s, j2, key_state(), r2);
    assert(sp_expect(s, j2, key_state()) == Some(j2 + key_state().len()));
    let j3 = j2 + key_state().len();
    lemma_window_split(s, j3, quoted(state_text(v.state)), r3);
    lemma_sp_string_render(s, j3, state_text(v.state));
    assert(state_text(DerivationState::Starting) != state_text(DerivationState::InProgress));
    assert(state_text(DerivationState::Starting)[0] == 's');
    assert(state_text(DerivationState::Finished)[0] == 'f');
    assert(state_text(DerivationState::Starting) != state_text(DerivationState::Finished));
    assert(state_text(DerivationState::InProgress) != state_text(DerivationState::Finished));
    assert(sp_state(s, j3) == Some((v.state, j3 + quoted(state_text(v.state)).len())));
    let j4 = j3 + quoted(state_text(v.state)).len();
    lemma_window_split(s, j4, key_completed(), r4);
    assert(sp_expect(s, j4, key_completed()) == Some(j4 + key_completed().len()));
    let j5 = j4 + key_completed().len();
    lemma_window_split(s, j5, render_list(v.completed), r5);
    lemma_sp_list_render(s, j5, v.completed);
    let j6 = j5 + render_list(v.completed).len();
    lemma_window_split(s, j6, key_missing(), r6);
    assert(sp_expect(s, j6, key_missing()) == Some(j6 + key_missing().len()));
    let j7 = j6 + key_missing().len();
    lemma_window_split(s, j7, render_list(v.missing), r7);
    lemma_sp_list_render(s, j7, v.missing);
    let j8 = j7 + render_list(v.missing).len();
    lemma_window_split(s, j8, key_total(), r8);
    assert(sp_expect(s, j8, key_total()) == Some(j8 + key_total().len()));
    let j9 = j8 + key_total().len();
    lemma_window_split(s, j9, render_list(v.total), r9);
    lemma_sp_list_render(s, j9, v.total);
    let j10 = j9 + render_list(v.total).len();
    assert(sp_expect(s, j10, seq!['}']) == Some(j10 + 1));
    let parsed = sp_metadata(s, i)->Some_0.0;
    assert(parsed == v);
}

/// Law of state durability: a record serialized into a checkpoint commit
/// message is reconstructed from that message exactly, in any process.
pub proof fn lemma_metadata_round_trip(v: MetadataView)
    ensures
        sp_message(render_message(v)) == Some(Some(v)),
{
    let msg = render_message(v);
    assert(msg.take(sentinel_text().len() as int) =~= sentinel_text());
    assert(is_prefix_of(sentinel_text(), msg));
    let i = sentinel_text().len() as int;
    assert(msg.subrange(i, i + render_metadata(v).len()) =~= render_metadata(v));
    lemma_sp_metadata_render(msg, i, v);
    assert(i + render_metadata(v).len() == msg.len());
}

// ---------------------------------------------------------------------------
// The executable writer.
// ---------------------------------------------------------------------------
#[verifier::loop_isolation(false)]
fn append_escaped(out: &mut String, s: &str)
    ensures
        final(out)@ == old(out)@ + esc(s@),
{
    let n = s.unicode_len();
    let mut i: usize = 0;
    proof {
        assert(s@.skip(0) =~= s@);
        assert(out@ + esc(s@) =~= old(out)@ + esc(s@));
    }
    while i < n
        invariant
            0 <= i <= n,
            n == s@.len(),
            out@ + esc(s@.skip(i as int)) == old(out)@ + esc(s@),
        decreases n - i,
    {
        let c = s.get_char(i);
        let ghost before = out@;
        if c == '"' || c == '\\' {
            out.push('\\');
            out.push(c);
        } else {
            out.push(c);
        }
        proof {
            let rest = s@.skip(i as int);
            assert(rest[0] == s@[i as int]);
            assert(rest.drop_first() =~= s@.skip(i + 1 as int));
            assert(out@ =~= before + esc_char(s@[i as int]));
            assert(before + (esc_char(s@[i as int]) + esc(s@.skip(i + 1 as int))) =~= (before
                + esc_char(s@[i as int])) + esc(s@.skip(i + 1 as int)));
        }
        i = i + 1;
    }
    proof {
        assert(esc(s@.skip(n as int)) =~= Seq::<char>::empty());
        assert(out@ + Seq::<char>::empty() =~= out@);
    }
}

fn append_quoted(out: &mut String, s: &str)
    ensures
        final(out)@ == old(out)@ + quoted(s@),
{
    proof {
        reveal_strlit("\"");
        assert("\""@ =~= seq!['"']);
    }
    out.append("\"");
    append_escaped(out, s);
    out.append("\"");
    proof {
        assert(out@ =~= old(out)@ + quoted(s@));
    }
}

fn append_item(out: &mut String, f: &FeatureMetadata)
    ensures
        final(out)@ == old(out)@ + render_item(f.spec_path()),
{
    proof {
        reveal_strlit("{\"path\":");
        assert("{\"path\":"@ =~= key_path());
        reveal_strlit("}");
        assert("}"@ =~= seq!['}']);
    }
    out.append("{\"path\":");
    append_quoted(out, f.get_raw_path().as_str());
    out.append("}");
    proof {
        assert(out@ =~= old(out)@ + render_item(f.spec_path()));
    }
}

proof fn lemma_render_items_snoc(w: Seq<Seq<char>>, x: Seq<char>)
    ensures
        render_items(w.push(x)) == if w.len() == 0 {
            render_item(x)
        } else {
            render_items(w) + seq![','] + render_item(x)
        },
    decreases w.len(),
{
    let v = w.push(x);
    if w.len() == 0 {
        assert(v.len() == 1);
        assert(v[0] == x);
    } else {
        assert(v[0] == w[0]);
        assert(v.drop_first() =~= w.drop_first().push(x));
        lemma_render_items_snoc(w.drop_first(), x);
        if w.len() == 1 {
            assert(render_items(w) == render_item(w[0]));
            assert(render_items(v) =~= render_items(w) + seq![','] + render_item(x));
        } else {
            assert(render_items(w) == render_item(w[0]) + seq![','] + render_items(
                w.drop_first(),
            ));
            assert(render_item(v[0]) + seq![','] + (render_items(w.drop_first()) + seq![',']
                + render_item(x)) =~= render_items(w) + seq![','] + render_item(x));
        }
    }
}

#[verifier::loop_isolation(false)]
fn append_list(out: &mut String, v: &Vec<FeatureMetadata>)
    ensures
        final(out)@ == old(out)@ + render_list(
            v@.map_values(|f: FeatureMetadata| f.spec_path()),
        ),
{
    proof {
        reveal_strlit("[");
        reveal_strlit("]");
        reveal_strlit(",");
        assert("["@ =~= seq!['[']);
        assert("]"@ =~= seq![']']);
        assert(","@ =~= seq![',']);
    }
    let ghost vs = v@.map_values(|f: FeatureMetadata| f.spec_path());
    out.append("[");
    let ghost base = out@;
    let n = v.len();
    let mut i: usize = 0;
    proof {
        assert(render_items(vs.take(0)) =~= Seq::<char>::empty());
        assert(out@ =~= base + render_items(vs.take(0)));
    }
    while i < n
        invariant
            0 <= i <= n,
            n == vs.len(),
            out@ == base + render_items(vs.take(i as int)),
        decreases n - i,
    {
        let ghost before = out@;
        if i > 0 {
            out.append(",");
        }
        append_item(out, &v[i]);
        proof {
            assert(vs.take(i + 1 as int) =~= vs.take(i as int).push(vs[i as int]));
            lemma_render_items_snoc(vs.take(i as int), vs[i as int]);
            assert(vs[i as int] == v@[i as int].spec_path());
            if i > 0 {
                assert(out@ =~= base + (render_items(vs.take(i as int)) + seq![','] + render_item(
                    vs[i as int],
                )));
            } else {
                assert(vs.take(0) =~= Seq::<Seq<char>>::empty());
                assert(out@ =~= base + render_item(vs[i as int]));
            }
        }
        i = i + 1;
    }
    out.append("]");
    proof {
        assert(vs.take(n as int) =~= vs);
        assert(out@ =~= old(out)@ + render_list(vs));
    }
}

/// Serializes a derivation record into the commit-message form: the fixed
/// sentinel comment block, then the JSON-shaped payload.
pub fn make_derivation_commit_message(m: &DerivationMetadata) -> (r: String)
    ensures
        r@ == render_message(m@),
{
    proof {
        reveal_strlit("{\"id\":");
        reveal_strlit(",\"state\":");
        reveal_strlit(",\"completed\":");
        reveal_strlit(",\"missing\":");
        reveal_strlit(",\"total\":");
        reveal_strlit("}");
        assert("{\"id\":"@ =~= key_id());
        assert(",\"state\":"@ =~= key_state());
        assert(",\"completed\":"@ =~= key_completed());
        assert(",\"missing\":"@ =~= key_missing());
        assert(",\"total\":"@ =~= key_total());
        assert("}"@ =~= seq!['}']);
    }
    let mut r = String::from_str("# DO NOT EDIT OR REMOVE THIS COMMIT\nDERIVATION STATUS\n");
    r.append("{\"id\":");
    append_quoted(&mut r, m.get_id().as_str());
    r.append(",\"state\":");
    let st = m.get_state().to_text();
    append_quoted(&mut r, st.as_str());
    r.append(",\"completed\":");
    append_list(&mut r, m.get_completed());
    r.append(",\"missing\":");
    append_list(&mut r, m.get_missing());
    r.append(",\"total\":");
    append_list(&mut r, m.get_total());
    r.append("}");
    proof {
        assert(r@ =~= render_message(m@));
    }
    r
}

// ---------------------------------------------------------------------------
// The executable parser.
// ---------------------------------------------------------------------------
/// A derivation record that carried the sentinel but whose payload did not
/// parse; per the persistence design this is a hard error for the caller.
#[derive(Clone, Copy, Debug, PartialEq, Eq, Structural)]
pub struct RecordParseError {
    dummy: bool,
}

impl RecordParseError {
    pub fn new() -> (r: Self) {
        Self { dummy: true }
    }

    /// A human-readable description of the error.
    pub fn describe(&self) -> String {
        String::from_str("the derivation record in the commit message is malformed")
    }
}

fn x_expect(s: &str, n: usize, i: usize, lit: &str) -> (r: Option<usize>)
    requires
        n == s@.len(),
    ensures
        r is None <==> sp_expect(s@, i as int, lit@) is None,
        r matches Some(j) ==> sp_expect(s@, i as int, lit@) == Some(j as int) && j == i
            + lit@.len() && j <= n,
{
    let ln = lit.unicode_len();
    if i > n || n - i < ln {
        proof {
            assert(i + lit@.len() > s@.len());
        }
        return None;
    }
    let mut k: usize = 0;
    while k < ln
        invariant
            0 <= k <= ln,
            n == s@.len(),
            ln == lit@.len(),
            i + ln <= n,
            forall|t: int| 0 <= t < k ==> s@[i + t] == lit@[t],
        decreases ln - k,
    {
        if s.get_char(i + k) != lit.get_char(k) {
            proof {
                assert(s@.subrange(i as int, i + lit@.len()) != lit@) by {
                    assert(s@.subrange(i as int, i + lit@.len())[k as int] == s@[i + k]);
                }
            }
            return None;
        }
        k = k + 1;
    }
    proof {
        assert(s@.subrange(i as int, i + lit@.len()) =~= lit@);
    }
    Some(i + ln)
}

#[verifier::loop_isolation(false)]
fn x_string(s: &str, n: usize, i: usize) -> (r: Option<(String, usize)>)
    requires
        n == s@.len(),
    ensures
        r is None <==> sp_string(s@, i as int) is None,
        r matches Some(t) ==> sp_string(s@, i as int) == Some((t.0@, t.1 as int)) && t.1 <= n,
{
    if i >= n {
        return None;
    }
    if s.get_char(i) != '"' {
        return None;
    }
    let mut acc = String::new();
    let mut k: usize = i + 1;
    while k < n
        invariant
            i + 1 <= k <= n,
            sp_chars(s@, i + 1) == (match sp_chars(s@, k as int) {
                Some((t, j)) => Some((acc@ + t, j)),
                None => None,
            }),
        decreases n - k,
    {
        let c = s.get_char(k);
        let ghost before = acc@;
        if c == '"' {
            proof {
                assert(sp_chars(s@, k as int) == Some((Seq::<char>::empty(), k + 1 as int)));
                assert(before + Seq::<char>::empty() =~= before);
            }
            return Some((acc, k + 1));
        } else if c == '\\' {
            if k + 1 < n {
                let c2 = s.get_char(k + 1);
                if c2 == '"' || c2 == '\\' {
                    acc.push(c2);
                    proof {
                        assert forall|t: Seq<char>, j: int|
                            sp_chars(s@, k + 2 as int) == Some((t, j)) implies before + (seq![c2]
                            + t) =~= acc@ + t by {}
                    }
                    k = k + 2;
                } else {
                    return None;
                }
            } else {
                return None;
            }
        } else {
            acc.push(c);
            proof {
                assert forall|t: Seq<char>, j: int|
                    sp_chars(s@, k + 1 as int) == Some((t, j)) implies before + (seq![c] + t)
                    =~= acc@ + t by {}
            }
            k = k + 1;
        }
    }
    proof {
        assert(sp_chars(s@, k as int) is None);
    }
    None
}

fn x_item(s: &str, n: usize, i: usize) -> (r: Option<(FeatureMetadata, usize)>)
    requires
        n == s@.len(),
    ensures
        r is None <==> sp_item(s@, i as int) is None,
        r matches Some(t) ==> sp_item(s@, i as int) == Some((t.0.spec_path(), t.1 as int)) && t.1
            <= n,
{
    proof {
        reveal_strlit("{\"path\":");
        assert("{\"path\":"@ =~= key_path());
        reveal_strlit("}");
        assert("}"@ =~= seq!['}']);
    }
    match x_expect(s, n, i, "{\"path\":") {
        Some(j) => match x_string(s, n, j) {
            Some((p, j2)) => match x_expect(s, n, j2, "}") {
                Some(j3) => Some((FeatureMetadata::new(p.as_str()), j3)),
                None => None,
            },
            None => None,
        },
        None => None,
    }
}

fn x_items(s: &str, n: usize, i: usize) -> (r: Option<(Vec<FeatureMetadata>, usize)>)
    requires
        n == s@.len(),
        i <= n,
    ensures
        r is None <==> sp_items(s@, i as int) is None,
        r matches Some(t) ==> sp_items(s@, i as int) == Some(
            (t.0@.map_values(|f: FeatureMetadata| f.spec_path()), t.1 as int),
        ) && t.1 <= n,
    decreases n - i,
{
    match x_item(s, n, i) {
        Some((p, j)) => {
            if j <= i || j > n {
                None
            } else if j < n && s.get_char(j) == ',' {
                match x_items(s, n, j + 1) {
                    Some((v, j2)) => {
                        let mut out: Vec<FeatureMetadata> = Vec::new();
                        out.push(p);
                        let mut rest = v;
                        out.append(&mut rest);
                        proof {
                            let m = out@.map_values(|f: FeatureMetadata| f.spec_path());
                            let inner = sp_items(s@, j + 1 as int)->Some_0.0;
                            assert(m =~= seq![out@[0].spec_path()] + inner);
                        }
                        Some((out, j2))
                    },
                    None => None,
                }
            } else {
                proof {
                    reveal_strlit("]");
                    assert("]"@ =~= seq![']']);
                }
                match x_expect(s, n, j, "]") {
                    Some(j2) => {
                        let mut out: Vec<FeatureMetadata> = Vec::new();
                        out.push(p);
                        proof {
                            assert(out@.map_values(|f: FeatureMetadata| f.spec_path())
                                =~= seq![out@[0].spec_path()]);
                        }
                        Some((out, j2))
                    },
                    None => None,
                }
            }
        },
        None => None,
    }
}

fn x_list(s: &str, n: usize, i: usize) -> (r: Option<(Vec<FeatureMetadata>, usize)>)
    requires
        n == s@.len(),
    ensures
        r is None <==> sp_list(s@, i as int) is None,
        r matches Some(t) ==> sp_list(s@, i as int) == Some(
            (t.0@.map_values(|f: FeatureMetadata| f.spec_path()), t.1 as int),
        ) && t.1 <= n,
{
    proof {
        reveal_strlit("[");
        assert("["@ =~= seq!['[']);
    }
    match x_expect(s, n, i, "[") {
        Some(j) => {
            if j < n && s.get_char(j) == ']' {
                let out: Vec<FeatureMetadata> = Vec::new();
                proof {
                    assert(out@.map_values(|f: FeatureMetadata| f.spec_path())
                        =~= Seq::<Seq<char>>::empty());
                }
                Some((out, j + 1))
            } else {
                x_items(s, n, j)
            }
        },
        None => None,
    }
}

fn x_state(s: &str, n: usize, i: usize) -> (r: Option<(DerivationState, usize)>)
    requires
        n == s@.len(),
    ensures
        r is None <==> sp_state(s@, i as int) is None,
        r matches Some(t) ==> sp_state(s@, i as int) == Some((t.0, t.1 as int)) && t.1 <= n,
{
    proof {
        reveal_strlit("starting");
        reveal_strlit("in_progress");
        reveal_strlit("finished");
        assert("starting"@ =~= state_text(DerivationState::Starting));
        assert("in_progress"@ =~= state_text(DerivationState::InProgress));
        assert("finished"@ =~= state_text(DerivationState::Finished));
    }
    match x_string(s, n, i) {
        Some((t, j)) => {
            if t == String::from_str("starting") {
                Some((DerivationState::Starting, j))
            } else if t == String::from_str("in_progress") {
                Some((DerivationState::InProgress, j))
            } else if t == String::from_str("finished") {
                Some((DerivationState::Finished, j))
            } else {
                None
            }
        },
        None => None,
    }
}

fn x_metadata(s: &str, n: usize, i: usize) -> (r: Option<(DerivationMetadata, usize)>)
    requires
        n == s@.len(),
    ensures
        r is None <==> sp_metadata(s@, i as int) is None,
        r matches Some(t) ==> sp_metadata(s@, i as int) == Some((t.0@, t.1 as int)) && t.1 <= n,
{
    proof {
        reveal_strlit("{\"id\":");
        reveal_strlit(",\"state\":");
        reveal_strlit(",\"completed\":");
        reveal_strlit(",\"missing\":");
        reveal_strlit(",\"total\":");
        reveal_strlit("}");
        assert("{\"id\":"@ =~= key_id());
        assert(",\"state\":"@ =~= key_state());
        assert(",\"completed\":"@ =~= key_completed());
        assert(",\"missing\":"@ =~= key_missing());
        assert(",\"total\":"@ =~= key_total());
        assert("}"@ =~= seq!['}']);
    }
    let j1 = match x_expect(s, n, i, "{\"id\":") {
        Some(j) => j,
        None => {
            return None;
        },
    };
    let (id, j2) = match x_string(s, n, j1) {
        Some(t) => t,
        None => {
            return None;
        },
    };
    let j3 = match x_expect(s, n, j2, ",\"state\":") {
        Some(j) => j,
        None => {
            return None;
        },
    };
    let (st, j4) = match x_state(s, n, j3) {
        Some(t) => t,
        None => {
            return None;
        },
    };
    let j5 = match x_expect(s, n, j4, ",\"completed\":") {
        Some(j) => j,
        None => {
            return None;
        },
    };
    let (completed, j6) = match x_list(s, n, j5) {
        Some(t) => t,
        None => {
            return None;
        },
    };
    let j7 = match x_expect(s, n, j6, ",\"missing\":") {
        Some(j) => j,
        None => {
            return None;
        },
    };
    let (missing, j8) = match x_list(s, n, j7) {
        Some(t) => t,
        None => {
            return None;
        },
    };
    let j9 = match x_expect(s, n, j8, ",\"total\":") {
        Some(j) => j,
        None => {
            return None;
        },
    };
    let (total, j10) = match x_list(s, n, j9) {
        Some(t) => t,
        None => {
            return None;
        },
    };
    let j11 = match x_expect(s, n, j10, "}") {
        Some(j) => j,
        None => {
            return None;
        },
    };
    let m = DerivationMetadata::new(id, st, completed, missing, total);
    Some((m, j11))
}

/// Reads a commit message back: no sentinel means the commit is not a
/// derivation record at all; a sentinel with a malformed payload is a hard
/// parse error; otherwise the record is reconstructed.
pub fn parse_derivation_commit_message(commit: &Commit) -> (r: Option<
    Result<DerivationMetadata, RecordParseError>,
>)
    ensures
        r is None <==> sp_message(commit.spec_message()) is None,
        r matches Some(x) ==> (x matches Ok(m) ==> sp_message(commit.spec_message()) == Some(
            Some(m@),
        )),
        r matches Some(x) ==> (x matches Err(_) ==> sp_message(commit.spec_message()) == Some(
            None::<MetadataView>,
        )),
        sp_message(commit.spec_message()) matches Some(inner) ==> (inner matches Some(v) ==> (
        r matches Some(x) && x matches Ok(m) && m@ == v)),
{
    let msg = commit.get_message().as_str();
    let sentinel = "# DO NOT EDIT OR REMOVE THIS COMMIT\nDERIVATION STATUS\n";
    if !crate::text::str_starts_with(msg, sentinel) {
        return None;
    }
    let n = msg.unicode_len();
    let start = sentinel.unicode_len();
    proof {
        assert(start == sentinel_text().len());
    }
    match x_metadata(msg, n, start) {
        Some((m, j)) => {
            if j == n {
                Some(Ok(m))
            } else {
                Some(Err(RecordParseError::new()))
            }
        },
        None => Some(Err(RecordParseError::new())),
    }
}

} // verus!
