//! The persisted stack-state document.
//!
//! A snapshot is stored as a versioned text document: one token per line —
//! the version marker, the head's object id, the previous state commit's
//! id (or a dash), and then one `kind / id / name` line triple for each
//! patch, applied first, then unapplied, then hidden. Object ids appear as
//! the store spells them; the driver turns them into handles after
//! parsing. Documents of an unknown version are rejected.
//!
//! Formatting and parsing are inverse: [`lemma_doc_round_trip`] proves
//! that parsing a formatted document yields the document back.

use vstd::prelude::*;

use crate::error::Error;
use crate::patchname::{chars_to_string, valid_name, PatchName};

verus! {

/// One patch record of the document: the commit's id as the store spells
/// it, and the patch name.
#[derive(Debug)]
pub struct DocPatch {
    pub id: String,
    pub name: PatchName,
}

/// The document's patch records, as mathematics: (id, name) text pairs.
pub open spec fn entry_views(s: Seq<DocPatch>) -> Seq<(Seq<char>, Seq<char>)> {
    s.map_values(|d: DocPatch| (d.id@, d.name@))
}

/// A stack-state document: what one snapshot looks like at rest.
#[derive(Debug)]
pub struct StateDoc {
    pub head: String,
    pub prev: Option<String>,
    pub applied: Vec<DocPatch>,
    pub unapplied: Vec<DocPatch>,
    pub hidden: Vec<DocPatch>,
}

/// A document, as mathematics.
#[verifier::ext_equal]
pub struct DocView {
    pub head: Seq<char>,
    pub prev: Option<Seq<char>>,
    pub applied: Seq<(Seq<char>, Seq<char>)>,
    pub unapplied: Seq<(Seq<char>, Seq<char>)>,
    pub hidden: Seq<(Seq<char>, Seq<char>)>,
}

impl View for StateDoc {
    type V = DocView;

    open spec fn view(&self) -> DocView {
        DocView {
            head: self.head@,
            prev: match self.prev {
                Some(p) => Some(p@),
                None => None,
            },
            applied: entry_views(self.applied@),
            unapplied: entry_views(self.unapplied@),
            hidden: entry_views(self.hidden@),
        }
    }
}

/// The version marker of this schema.
pub open spec fn version_tok() -> Seq<char> {
    seq!['s', 't', 'a', 'c', 'k', 's', 't', 'a', 't', 'e', '-', '1']
}

/// The token standing for "no previous state".
pub open spec fn dash_tok() -> Seq<char> {
    seq!['-']
}

/// The kind tags of the three patch lists.
pub open spec fn tag_applied() -> Seq<char> {
    seq!['a']
}

pub open spec fn tag_unapplied() -> Seq<char> {
    seq!['u']
}

pub open spec fn tag_hidden() -> Seq<char> {
    seq!['h']
}

/// A token that the line format can carry: it holds no line break.
pub open spec fn no_newline(s: Seq<char>) -> bool {
    forall|i: int| 0 <= i < s.len() ==> s[i] != '\n'
}

/// A document the format can carry and give back: ids hold no line break,
/// a previous-state id is not spelled like the dash, and names satisfy the
/// grammar.
pub open spec fn doc_wf(v: DocView) -> bool {
    &&& no_newline(v.head)
    &&& match v.prev {
        Some(p) => no_newline(p) && p != dash_tok(),
        None => true,
    }
    &&& seg_wf(v.applied)
    &&& seg_wf(v.unapplied)
    &&& seg_wf(v.hidden)
}

/// Every record of a segment can be carried: the id holds no line break
/// and the name satisfies the grammar.
pub open spec fn seg_wf(es: Seq<(Seq<char>, Seq<char>)>) -> bool {
    forall|i: int|
        0 <= i < es.len() ==> no_newline(#[trigger] es[i].0) && valid_name(es[i].1)
}

/// The line triples of one segment.
pub open spec fn entry_tokens(es: Seq<(Seq<char>, Seq<char>)>, tag: Seq<char>) -> Seq<Seq<char>>
    decreases es.len(),
{
    if es.len() == 0 {
        Seq::empty()
    } else {
        seq![tag, es[0].0, es[0].1] + entry_tokens(es.drop_first(), tag)
    }
}

/// All lines of a document, in order.
pub open spec fn doc_tokens(v: DocView) -> Seq<Seq<char>> {
    seq![
        version_tok(),
        v.head,
        match v.prev {
            Some(p) => p,
            None => dash_tok(),
        },
    ] + entry_tokens(v.applied, tag_applied()) + entry_tokens(v.unapplied, tag_unapplied())
        + entry_tokens(v.hidden, tag_hidden())
}

/// Lines joined into one text, each line closed by a line break.
pub open spec fn spec_join(ts: Seq<Seq<char>>) -> Seq<char>
    decreases ts.len(),
{
    if ts.len() == 0 {
        Seq::empty()
    } else {
        ts[0] + seq!['\n'] + spec_join(ts.drop_first())
    }
}

/// The formatted document.
pub open spec fn spec_format_doc(v: DocView) -> Seq<char> {
    spec_join(doc_tokens(v))
}

/// A text cut back into lines, collecting the current line so far; fails
/// on a text whose last line is not closed.
pub open spec fn split_acc(s: Seq<char>, cur: Seq<char>) -> Option<Seq<Seq<char>>>
    decreases s.len(),
{
    if s.len() == 0 {
        if cur.len() == 0 {
            Some(Seq::empty())
        } else {
            None
        }
    } else if s[0] == '\n' {
        match split_acc(s.drop_first(), Seq::empty()) {
            Some(r) => Some(seq![cur] + r),
            None => None,
        }
    } else {
        split_acc(s.drop_first(), cur.push(s[0]))
    }
}

/// A text cut back into its lines.
pub open spec fn spec_split(s: Seq<char>) -> Option<Seq<Seq<char>>> {
    split_acc(s, Seq::empty())
}

/// Joining distributes over concatenation of line lists.
proof fn lemma_join_concat(a: Seq<Seq<char>>, b: Seq<Seq<char>>)
    ensures
        spec_join(a + b) =~= spec_join(a) + spec_join(b),
    decreases a.len(),
{
    if a.len() == 0 {
        assert(a + b =~= b);
    } else {
        assert((a + b).drop_first() =~= a.drop_first() + b);
        lemma_join_concat(a.drop_first(), b);
    }
}

/// Splitting one closed line off the front: the accumulated prefix plus
/// the line's text becomes the first piece.
proof fn lemma_split_acc_token(t: Seq<char>, s: Seq<char>, cur: Seq<char>)
    requires
        no_newline(t),
    ensures
        split_acc(t + seq!['\n'] + s, cur) == match split_acc(s, Seq::empty()) {
            Some(r) => Some(seq![cur + t] + r),
            None => None::<Seq<Seq<char>>>,
        },
    decreases t.len(),
{
    let whole = t + seq!['\n'] + s;
    if t.len() == 0 {
        assert(whole[0] == '\n');
        assert(whole.drop_first() =~= s);
        assert(cur + t =~= cur);
    } else {
        assert(whole[0] == t[0]);
        assert(t[0] != '\n');
        assert(whole.drop_first() =~= t.drop_first() + seq!['\n'] + s);
        lemma_split_acc_token(t.drop_first(), s, cur.push(t[0]));
        assert(cur.push(t[0]) + t.drop_first() =~= cur + t);
    }
}

/// Law: splitting a joined line list gives the lines back, provided no
/// line holds a line break.
pub proof fn lemma_split_join(ts: Seq<Seq<char>>)
    requires
        forall|i: int| 0 <= i < ts.len() ==> no_newline(#[trigger] ts[i]),
    ensures
        spec_split(spec_join(ts)) == Some(ts),
    decreases ts.len(),
{
    if ts.len() == 0 {
    } else {
        lemma_split_join(ts.drop_first());
        lemma_split_acc_token(ts[0], spec_join(ts.drop_first()), Seq::empty());
        assert(Seq::<char>::empty() + ts[0] =~= ts[0]);
        assert(seq![ts[0]] + ts.drop_first() =~= ts);
    }
}

/// Parse one segment's leading triples: the records read, and the lines
/// left over.
pub open spec fn parse_seg(ts: Seq<Seq<char>>, tag: Seq<char>) -> (
    Seq<(Seq<char>, Seq<char>)>,
    Seq<Seq<char>>,
)
    decreases ts.len(),
{
    if ts.len() >= 3 && ts[0] == tag && valid_name(ts[2]) {
        let (es, rest) = parse_seg(ts.skip(3), tag);
        (seq![(ts[1], ts[2])] + es, rest)
    } else {
        (Seq::empty(), ts)
    }
}

/// What parsing a line list yields: the document, when the lines are a
/// well-formed document of this schema's version.
pub open spec fn spec_parse_tokens(ts: Seq<Seq<char>>) -> Option<DocView> {
    if ts.len() < 3 || ts[0] != version_tok() {
        None
    } else {
        let head = ts[1];
        let prev = if ts[2] == dash_tok() {
            None
        } else {
            Some(ts[2])
        };
        let (a, r1) = parse_seg(ts.skip(3), tag_applied());
        let (u, r2) = parse_seg(r1, tag_unapplied());
        let (h, r3) = parse_seg(r2, tag_hidden());
        if r3.len() == 0 {
            Some(DocView { head, prev, applied: a, unapplied: u, hidden: h })
        } else {
            None
        }
    }
}

/// What parsing a text yields.
pub open spec fn spec_parse_doc(s: Seq<char>) -> Option<DocView> {
    match spec_split(s) {
        Some(ts) => spec_parse_tokens(ts),
        None => None,
    }
}

/// Parsing a segment's own triples consumes exactly them, when what
/// follows does not begin with the same tag.
proof fn lemma_parse_seg_tokens(
    es: Seq<(Seq<char>, Seq<char>)>,
    tag: Seq<char>,
    rest: Seq<Seq<char>>,
)
    requires
        seg_wf(es),
        rest.len() == 0 || rest[0] != tag,
    ensures
        parse_seg(entry_tokens(es, tag) + rest, tag) == (es, rest),
    decreases es.len(),
{
    if es.len() == 0 {
        assert(entry_tokens(es, tag) + rest =~= rest);
        if rest.len() >= 3 {
            assert(rest[0] != tag);
        }
        assert(parse_seg(rest, tag) == (Seq::<(Seq<char>, Seq<char>)>::empty(), rest));
    } else {
        let ts = entry_tokens(es, tag) + rest;
        assert(ts =~= seq![tag, es[0].0, es[0].1] + (entry_tokens(es.drop_first(), tag) + rest));
        assert(ts[0] == tag && ts[1] == es[0].0 && ts[2] == es[0].1);
        assert(valid_name(ts[2])) by {
            assert(seg_wf(es));
        }
        assert(ts.len() >= 3);
        assert(ts.skip(3) =~= entry_tokens(es.drop_first(), tag) + rest);
        assert(seg_wf(es.drop_first())) by {
            assert forall|i: int|
                0 <= i < es.drop_first().len() implies no_newline(
                #[trigger] es.drop_first()[i].0,
            ) && valid_name(es.drop_first()[i].1) by {
                assert(es.drop_first()[i] == es[i + 1]);
            }
        }
        lemma_parse_seg_tokens(es.drop_first(), tag, rest);
        assert(seq![(ts[1], ts[2])] + es.drop_first() =~= es);
    }
}

/// Law: parsing a formatted document gives the document back, for every
/// document the format can carry.
pub proof fn lemma_doc_round_trip(v: DocView)
    requires
        doc_wf(v),
    ensures
        spec_parse_doc(spec_format_doc(v)) == Some(v),
{
    lemma_entry_tokens_carry(v.applied, tag_applied());
    lemma_entry_tokens_carry(v.unapplied, tag_unapplied());
    lemma_entry_tokens_carry(v.hidden, tag_hidden());
    let ts = doc_tokens(v);
    assert forall|i: int| 0 <= i < ts.len() implies no_newline(#[trigger] ts[i]) by {
        let ea = entry_tokens(v.applied, tag_applied());
        let eu = entry_tokens(v.unapplied, tag_unapplied());
        let eh = entry_tokens(v.hidden, tag_hidden());
        if i < 3 {
        } else if i < 3 + ea.len() {
            assert(ts[i] == ea[i - 3]);
        } else if i < 3 + ea.len() + eu.len() {
            assert(ts[i] == eu[i - 3 - ea.len()]);
        } else {
            assert(ts[i] == eh[i - 3 - ea.len() - eu.len()]);
        }
    }
    lemma_split_join(ts);
    assert(ts[0] == version_tok());
    assert(ts[1] == v.head);
    assert(ts.len() >= 3);
    let after = entry_tokens(v.applied, tag_applied()) + (entry_tokens(
        v.unapplied,
        tag_unapplied(),
    ) + (entry_tokens(v.hidden, tag_hidden()) + Seq::<Seq<char>>::empty()));
    assert(ts.skip(3) =~= entry_tokens(v.applied, tag_applied()) + (entry_tokens(
        v.unapplied,
        tag_unapplied(),
    ) + (entry_tokens(v.hidden, tag_hidden()) + Seq::<Seq<char>>::empty())));
    let r1 = entry_tokens(v.unapplied, tag_unapplied()) + (entry_tokens(v.hidden, tag_hidden())
        + Seq::<Seq<char>>::empty());
    let r2 = entry_tokens(v.hidden, tag_hidden()) + Seq::<Seq<char>>::empty();
    let r3 = Seq::<Seq<char>>::empty();
    assert(v.unapplied.len() > 0 ==> entry_tokens(v.unapplied, tag_unapplied())[0]
        == tag_unapplied());
    assert(v.hidden.len() > 0 ==> entry_tokens(v.hidden, tag_hidden())[0] == tag_hidden());
    assert(tag_unapplied()[0] != tag_applied()[0]);
    assert(tag_hidden()[0] != tag_applied()[0]);
    assert(tag_hidden()[0] != tag_unapplied()[0]);
    assert(r1.len() == 0 || r1[0] != tag_applied()) by {
        if r1.len() > 0 {
            if v.unapplied.len() > 0 {
                assert(r1[0] == entry_tokens(v.unapplied, tag_unapplied())[0]);
            } else {
                assert(entry_tokens(v.unapplied, tag_unapplied()).len() == 0);
                assert(r1 =~= r2);
                assert(v.hidden.len() > 0) by {
                    if v.hidden.len() == 0 {
                        assert(r2 =~= Seq::<Seq<char>>::empty());
                    }
                }
                assert(r1[0] == entry_tokens(v.hidden, tag_hidden())[0]);
            }
        }
    }
    lemma_parse_seg_tokens(v.applied, tag_applied(), r1);
    assert(r2.len() == 0 || r2[0] != tag_unapplied()) by {
        if r2.len() > 0 {
            assert(v.hidden.len() > 0) by {
                if v.hidden.len() == 0 {
                    assert(r2 =~= Seq::<Seq<char>>::empty());
                }
            }
            assert(r2[0] == entry_tokens(v.hidden, tag_hidden())[0]);
        }
    }
    lemma_parse_seg_tokens(v.unapplied, tag_unapplied(), r2);
    lemma_parse_seg_tokens(v.hidden, tag_hidden(), r3);
    let parsed = spec_parse_tokens(ts);
    match v.prev {
        Some(p) => {
            assert(ts[2] == p);
            assert(p != dash_tok());
        },
        None => {
            assert(ts[2] == dash_tok());
        },
    }
    assert(parsed == Some(v)) by {
        assert(parsed matches Some(w) && w =~= v);
    }
}

/// A segment's lines carry no line break: the tag is one letter, ids were
/// required clean, and name characters exclude line breaks.
proof fn lemma_entry_tokens_carry(es: Seq<(Seq<char>, Seq<char>)>, tag: Seq<char>)
    requires
        seg_wf(es),
        no_newline(tag),
    ensures
        forall|i: int|
            0 <= i < entry_tokens(es, tag).len() ==> no_newline(#[trigger] entry_tokens(es, tag)[i]),
        entry_tokens(es, tag).len() == 3 * es.len(),
    decreases es.len(),
{
    if es.len() > 0 {
        assert(seg_wf(es.drop_first())) by {
            assert forall|i: int|
                0 <= i < es.drop_first().len() implies no_newline(
                #[trigger] es.drop_first()[i].0,
            ) && valid_name(es.drop_first()[i].1) by {
                assert(es.drop_first()[i] == es[i + 1]);
            }
        }
        lemma_entry_tokens_carry(es.drop_first(), tag);
        assert(no_newline(es[0].1)) by {
            lemma_valid_name_no_newline(es[0].1);
        }
        assert forall|i: int|
            0 <= i < entry_tokens(es, tag).len() implies no_newline(
            #[trigger] entry_tokens(es, tag)[i],
        ) by {
            if i >= 3 {
                assert(entry_tokens(es, tag)[i] == entry_tokens(es.drop_first(), tag)[i - 3]);
            }
        }
    }
}

/// Grammar characters carry: a valid name holds no line break.
proof fn lemma_valid_name_no_newline(n: Seq<char>)
    requires
        valid_name(n),
    ensures
        no_newline(n),
{
    assert forall|i: int| 0 <= i < n.len() implies n[i] != '\n' by {
        assert(crate::patchname::is_name_char(n[i]));
    }
}

/// Segment lines distribute over record concatenation.
proof fn lemma_entry_tokens_concat(
    a: Seq<(Seq<char>, Seq<char>)>,
    b: Seq<(Seq<char>, Seq<char>)>,
    tag: Seq<char>,
)
    ensures
        entry_tokens(a + b, tag) =~= entry_tokens(a, tag) + entry_tokens(b, tag),
    decreases a.len(),
{
    if a.len() == 0 {
        assert(a + b =~= b);
    } else {
        assert((a + b).drop_first() =~= a.drop_first() + b);
        lemma_entry_tokens_concat(a.drop_first(), b, tag);
    }
}

/// The text of a single character.
fn char_string(c: char) -> (r: String)
    ensures
        r@ == seq![c],
{
    let mut v: Vec<char> = Vec::new();
    v.push(c);
    proof {
        assert(v@ =~= seq![c]);
    }
    chars_to_string(&v)
}

/// The version marker, as text.
fn version_string() -> (r: String)
    ensures
        r@ == version_tok(),
{
    let mut v: Vec<char> = Vec::new();
    v.push('s');
    v.push('t');
    v.push('a');
    v.push('c');
    v.push('k');
    v.push('s');
    v.push('t');
    v.push('a');
    v.push('t');
    v.push('e');
    v.push('-');
    v.push('1');
    proof {
        assert(v@ =~= version_tok());
    }
    chars_to_string(&v)
}

/// The lines of a sequence of texts.
pub open spec fn line_views(s: Seq<String>) -> Seq<Seq<char>> {
    s.map_values(|t: String| t@)
}

/// Join lines into one text, each line closed by a line break.
fn join_lines(lines: &Vec<String>) -> (r: String)
    ensures
        r@ == spec_join(line_views(lines@)),
{
    let mut out = String::new();
    let mut i: usize = 0;
    while i < lines.len()
        invariant
            i <= lines@.len(),
            out@ =~= spec_join(line_views(lines@).take(i as int)),
        decreases lines@.len() - i,
    {
        vstd::string::StringExecFns::append(&mut out, lines[i].as_str());
        crate::patchname::push_char(&mut out, '\n');
        proof {
            let ls = line_views(lines@);
            assert(ls.take(i + 1) =~= ls.take(i as int) + seq![ls[i as int]]);
            lemma_join_concat(ls.take(i as int), seq![ls[i as int]]);
            assert(spec_join(seq![ls[i as int]]) =~= ls[i as int] + seq!['\n']) by {
                reveal_with_fuel(spec_join, 2);
                assert(seq![ls[i as int]].drop_first() =~= Seq::<Seq<char>>::empty());
                assert(ls[i as int] + seq!['\n'] + Seq::<char>::empty() =~= ls[i as int]
                    + seq!['\n']);
            }
            assert(out@ =~= spec_join(ls.take(i + 1)));
        }
        i += 1;
    }
    assert(line_views(lines@).take(lines@.len() as int) =~= line_views(lines@));
    out
}

/// Cut a text back into lines; fails when the last line is not closed.
fn split_lines(text: &str) -> (r: Option<Vec<String>>)
    ensures
        match r {
            Some(lines) => spec_split(text@) == Some(line_views(lines@)),
            None => spec_split(text@) is None,
        },
{
    let n = vstd::string::StrSliceExecFns::unicode_len(text);
    let mut out: Vec<String> = Vec::new();
    let mut cur: Vec<char> = Vec::new();
    let mut i: usize = 0;
    proof {
        assert(text@.skip(0) =~= text@);
        assert(line_views(out@) =~= Seq::<Seq<char>>::empty());
        match split_acc(text@, cur@) {
            Some(r) => {
                assert(Seq::<Seq<char>>::empty() + r =~= r);
            },
            None => {},
        }
    }
    while i < n
        invariant
            n == text@.len(),
            i <= n,
            split_acc(text@, Seq::empty()) == opt_prepend(
                line_views(out@),
                split_acc(text@.skip(i as int), cur@),
            ),
        decreases n - i,
    {
        let c = vstd::string::StrSliceExecFns::get_char(text, i);
        let ghost pre_cur = cur@;
        let ghost pre_out = out@;
        if c == '\n' {
            out.push(chars_to_string(&cur));
            cur = Vec::new();
            proof {
                assert(text@.skip(i as int)[0] == '\n');
                assert(text@.skip(i as int).drop_first() =~= text@.skip(i + 1));
                assert(line_views(out@) =~= line_views(pre_out).push(pre_cur));
                lemma_opt_prepend_push(line_views(pre_out), pre_cur, split_acc(text@.skip(i + 1), Seq::empty()));
            }
        } else {
            cur.push(c);
            proof {
                assert(text@.skip(i as int)[0] == c);
                assert(text@.skip(i as int).drop_first() =~= text@.skip(i + 1));
                assert(cur@ =~= pre_cur.push(c));
            }
        }
        i += 1;
    }
    proof {
        assert(text@.skip(n as int) =~= Seq::<char>::empty());
    }
    if cur.len() == 0 {
        proof {
            assert(split_acc(Seq::<char>::empty(), cur@) == Some(Seq::<Seq<char>>::empty()));
            assert(line_views(out@) + Seq::<Seq<char>>::empty() =~= line_views(out@));
        }
        Some(out)
    } else {
        None
    }
}

/// Lines already cut, prepended to what splitting the rest yields.
pub open spec fn opt_prepend(a: Seq<Seq<char>>, o: Option<Seq<Seq<char>>>) -> Option<
    Seq<Seq<char>>,
> {
    match o {
        Some(r) => Some(a + r),
        None => None,
    }
}

/// Prepending composes with cutting one more line.
proof fn lemma_opt_prepend_push(a: Seq<Seq<char>>, t: Seq<char>, o: Option<Seq<Seq<char>>>)
    ensures
        opt_prepend(a, match o {
            Some(r) => Some(seq![t] + r),
            None => None::<Seq<Seq<char>>>,
        }) == opt_prepend(a.push(t), o),
{
    match o {
        Some(r) => {
            assert(a + (seq![t] + r) =~= a.push(t) + r);
        },
        None => {},
    }
}

/// Write a snapshot document as text.
pub fn format_state_doc(d: &StateDoc) -> (r: String)
    ensures
        r@ == spec_format_doc(d@),
{
    let mut lines: Vec<String> = Vec::new();
    lines.push(version_string());
    lines.push(d.head.clone());
    match &d.prev {
        Some(p) => lines.push(p.clone()),
        None => lines.push(char_string('-')),
    }
    proof {
        assert(line_views(lines@) =~= seq![
            version_tok(),
            d@.head,
            match d@.prev {
                Some(p) => p,
                None => dash_tok(),
            },
        ]);
    }
    push_segment(&mut lines, &d.applied, 'a');
    push_segment(&mut lines, &d.unapplied, 'u');
    push_segment(&mut lines, &d.hidden, 'h');
    proof {
        assert(line_views(lines@) =~= doc_tokens(d@));
    }
    join_lines(&lines)
}

/// Append one segment's line triples.
fn push_segment(lines: &mut Vec<String>, es: &Vec<DocPatch>, tag: char)
    ensures
        line_views(final(lines)@) == line_views(old(lines)@) + entry_tokens(
            entry_views(es@),
            seq![tag],
        ),
{
    let mut i: usize = 0;
    while i < es.len()
        invariant
            i <= es@.len(),
            line_views(lines@) =~= line_views(old(lines)@) + entry_tokens(
                entry_views(es@).take(i as int),
                seq![tag],
            ),
        decreases es@.len() - i,
    {
        let ghost pre = lines@;
        lines.push(char_string(tag));
        lines.push(es[i].id.clone());
        lines.push(es[i].name.to_text());
        proof {
            let ev = entry_views(es@);
            assert(line_views(lines@) =~= line_views(pre) + seq![
                seq![tag],
                ev[i as int].0,
                ev[i as int].1,
            ]);
            assert(ev.take(i + 1) =~= ev.take(i as int) + seq![ev[i as int]]);
            lemma_entry_tokens_concat(ev.take(i as int), seq![ev[i as int]], seq![tag]);
            assert(entry_tokens(seq![ev[i as int]], seq![tag]) =~= seq![
                seq![tag],
                ev[i as int].0,
                ev[i as int].1,
            ]) by {
                reveal_with_fuel(entry_tokens, 2);
                assert(seq![ev[i as int]].drop_first() =~= Seq::<(Seq<char>, Seq<char>)>::empty());
                assert(seq![seq![tag], ev[i as int].0, ev[i as int].1] + Seq::<Seq<char>>::empty()
                    =~= seq![seq![tag], ev[i as int].0, ev[i as int].1]);
            }
            assert(line_views(lines@) =~= line_views(old(lines)@) + entry_tokens(
                ev.take(i + 1),
                seq![tag],
            ));
        }
        i += 1;
    }
    assert(entry_views(es@).take(es@.len() as int) =~= entry_views(es@));
}

/// Read a snapshot document back from text. Fails exactly when the text is
/// not a formatted document of this schema — an unclosed line, a missing
/// or unknown version marker, a malformed record, or trailing lines.
pub fn parse_state_doc(text: &str) -> (r: Result<StateDoc, Error>)
    ensures
        match r {
            Ok(d) => spec_parse_doc(text@) == Some(d@),
            Err(e) => spec_parse_doc(text@) is None && (e matches Error::Vcs(_)),
        },
{
    let lines = match split_lines(text) {
        Some(lines) => lines,
        None => {
            return Err(Error::Vcs(malformed_doc_text()));
        },
    };
    if lines.len() < 3 {
        return Err(Error::Vcs(malformed_doc_text()));
    }
    if !lines[0].eq(&version_string()) {
        return Err(Error::Vcs(unknown_version_text()));
    }
    let head = lines[1].clone();
    let dash = char_string('-');
    let prev = if lines[2].eq(&dash) {
        None
    } else {
        Some(lines[2].clone())
    };
    let (applied, p1) = parse_segment(&lines, 3, 'a');
    let (unapplied, p2) = parse_segment(&lines, p1, 'u');
    let (hidden, p3) = parse_segment(&lines, p2, 'h');
    if p3 != lines.len() {
        proof {
            assert(line_views(lines@).skip(p3 as int).len() > 0);
        }
        return Err(Error::Vcs(malformed_doc_text()));
    }
    let d = StateDoc { head, prev, applied, unapplied, hidden };
    proof {
        let ts = line_views(lines@);
        assert(ts.skip(p3 as int).len() == 0);
        assert(spec_parse_tokens(ts) matches Some(w) && w =~= d@);
    }
    Ok(d)
}

/// Read one segment's leading line triples, returning the records and the
/// position where the segment ends.
fn parse_segment(lines: &Vec<String>, start: usize, tag: char) -> (r: (Vec<DocPatch>, usize))
    requires
        start <= lines@.len(),
    ensures
        ({
            let ts = line_views(lines@);
            &&& start <= r.1 <= lines@.len()
            &&& parse_seg(ts.skip(start as int), seq![tag]) == (
                entry_views(r.0@),
                ts.skip(r.1 as int),
            )
        }),
{
    let tag_s = char_string(tag);
    let mut out: Vec<DocPatch> = Vec::new();
    let mut pos: usize = start;
    while pos < lines.len()
        invariant
            start <= pos <= lines@.len(),
            tag_s@ == seq![tag],
            ({
                let ts = line_views(lines@);
                let sub = parse_seg(ts.skip(pos as int), seq![tag]);
                parse_seg(ts.skip(start as int), seq![tag]) == (
                    entry_views(out@) + sub.0,
                    sub.1,
                )
            }),
        decreases lines@.len() - pos,
    {
        let ghost ts = line_views(lines@);
        if lines.len() - pos < 3 {
            proof {
                assert(ts.skip(pos as int).len() < 3);
                assert(entry_views(out@) + Seq::<(Seq<char>, Seq<char>)>::empty() =~= entry_views(
                    out@,
                ));
            }
            return (out, pos);
        }
        if !lines[pos].eq(&tag_s) {
            proof {
                assert(ts.skip(pos as int)[0] == ts[pos as int]);
                assert(entry_views(out@) + Seq::<(Seq<char>, Seq<char>)>::empty() =~= entry_views(
                    out@,
                ));
            }
            return (out, pos);
        }
        let name = match PatchName::parse(lines[pos + 2].as_str()) {
            Ok(name) => name,
            Err(_) => {
                proof {
                    assert(ts.skip(pos as int)[2] == ts[pos + 2]);
                    assert(!valid_name(ts.skip(pos as int)[2]));
                    assert(entry_views(out@) + Seq::<(Seq<char>, Seq<char>)>::empty()
                        =~= entry_views(out@));
                }
                return (out, pos);
            },
        };
        let ghost pre = out@;
        out.push(DocPatch { id: lines[pos + 1].clone(), name });
        proof {
            assert(ts.skip(pos as int)[0] == ts[pos as int]);
            assert(ts.skip(pos as int)[1] == ts[pos + 1]);
            assert(ts.skip(pos as int)[2] == ts[pos + 2]);
            assert(valid_name(ts.skip(pos as int)[2]));
            assert(ts.skip(pos as int).skip(3) =~= ts.skip(pos + 3));
            assert(entry_views(out@) =~= entry_views(pre).push((ts[pos + 1], ts[pos + 2])));
            let sub = parse_seg(ts.skip(pos + 3), seq![tag]);
            assert(parse_seg(ts.skip(pos as int), seq![tag]) == (
                seq![(ts[pos + 1], ts[pos + 2])] + sub.0,
                sub.1,
            ));
            assert(entry_views(pre) + (seq![(ts[pos + 1], ts[pos + 2])] + sub.0) =~= entry_views(
                out@,
            ) + sub.0);
        }
        pos += 3;
    }
    proof {
        let ts = line_views(lines@);
        assert(ts.skip(pos as int).len() == 0);
        assert(entry_views(out@) + Seq::<(Seq<char>, Seq<char>)>::empty() =~= entry_views(out@));
    }
    (out, pos)
}

/// The message reported when a document's text is not well formed.
fn malformed_doc_text() -> (r: String)
    ensures
        r@ == "malformed stack state document"@,
{
    <String as vstd::string::StringExecFns>::from_str("malformed stack state document")
}

/// The message reported when a document carries an unknown version marker.
fn unknown_version_text() -> (r: String)
    ensures
        r@ == "unknown stack state version"@,
{
    <String as vstd::string::StringExecFns>::from_str("unknown stack state version")
}

} // verus!
