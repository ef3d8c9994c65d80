//! What holds of reading and writing together. A text is read without a
//! repair exactly if it is well formed. What is read of a steady text is
//! written as the text with its dividers set right. A text is written as
//! itself exactly if it is steady and its dividers stand right already, and
//! what is written of a text is read and written as itself exactly if it is
//! such a text; it is one where a steady text has no redundant divider.

use vstd::prelude::*;
use crate::delimiter::{is_delimiter_byte, lemma_delimiter_bytes, Delim, Delimiter, Direction};
use crate::diagnostic::Diagnostic;
use crate::form::{
    divider_wanted, dividers_exact, dividers_exact_from, dividers_needed, dividers_needed_from,
    fits, is_stray, normal_form, normal_from, open_after, segment, steady, steady_from, swallowed,
    tag_text, well_formed, well_formed_from, Opening,
};
use crate::lexer::{
    chunk_at, delimiter_at, divided_at, lemma_first_delimiter, lemma_next_delimiter,
    lemma_same_cut, lemma_segment_text, lemma_word_start, next_delimiter, tokens_from, word_at,
    TokenView,
};
use crate::loc::LocView;
use crate::node::{escaped, ElemView, Tree};
use crate::parser::{melt_all, parsed, ParseState};
use crate::text::{spec_is_literal, spec_is_word_char, DIVIDER, ESCAPER};
use crate::writer::{
    divider_if, fence_of, lemma_written_concat, lemma_written_push, rendered, state_after_text,
    written_forest, written_tree, NodeWriteState,
};

verus! {

/// A text is read without a repair if and only if it is well formed.
pub proof fn lemma_clean_iff_well_formed(s: Seq<u8>, path: Seq<char>)
    ensures
        parsed(s, path).1.len() == 0 <==> well_formed(s),
{
    let st = ParseState::start();
    assert(openings(st) =~= Seq::empty());
    if well_formed(s) {
        lemma_well_formed_reads_clean(s, path);
    } else {
        lemma_misread_on(s, 0, LocView::start(path), st);
    }
}

/// A well-formed text is read without a repair.
pub proof fn lemma_well_formed_reads_clean(s: Seq<u8>, path: Seq<char>)
    requires
        well_formed(s),
    ensures
        parsed(s, path).1 == Seq::<Diagnostic>::empty(),
{
    let st = ParseState::start();
    assert(openings(st) =~= Seq::empty());
    lemma_well_formed_is_steady(s, 0, Seq::empty());
    lemma_read_on(s, 0, LocView::start(path), st);
}

/// A well-formed text is steady.
pub proof fn lemma_well_formed_is_steady(s: Seq<u8>, pos: int, open: Seq<Opening>)
    requires
        well_formed_from(s, pos, open),
    ensures
        steady_from(s, pos, open),
    decreases s.len() - pos,
{
    let d = next_delimiter(s, pos);
    if pos >= 0 && d < s.len() {
        lemma_next_delimiter(s, pos);
        lemma_well_formed_is_steady(
            s,
            d + 1,
            open_after(open, word_at(s, pos), delimiter_at(s, pos)),
        );
    }
}

/// The forest of a steady text is written as the text with its dividers set
/// right.
pub proof fn lemma_written_is_normal(s: Seq<u8>, path: Seq<char>)
    requires
        steady(s),
    ensures
        rendered(parsed(s, path).0) == normal_form(s),
{
    let st = ParseState::start();
    assert(openings(st) =~= Seq::empty());
    lemma_closed_text(st);
    assert(rendered(st.top.children) =~= Seq::empty());
    lemma_read_on(s, 0, LocView::start(path), st);
    assert(Seq::<u8>::empty() + normal_form(s) =~= normal_form(s));
}

/// A steady text whose dividers stand where the writer puts them is written
/// as itself, whether or not it is read without a repair.
pub proof fn lemma_written_as_itself(s: Seq<u8>, path: Seq<char>)
    requires
        steady(s),
        dividers_exact(s),
    ensures
        rendered(parsed(s, path).0) == s,
{
    lemma_written_is_normal(s, path);
    lemma_exact_is_normal(s, 0, Seq::empty());
    assert(s.subrange(0, s.len() as int) =~= s);
}

/// A text is written as itself only if it is steady and its dividers stand
/// where the writer puts them: a text that the parser repairs otherwise is
/// written with more delimiters than it has.
pub proof fn lemma_written_as_itself_only(s: Seq<u8>, path: Seq<char>)
    requires
        rendered(parsed(s, path).0) == s,
    ensures
        steady(s),
        dividers_exact(s),
{
    let st = ParseState::start();
    assert(openings(st) =~= Seq::empty());
    lemma_closed_text(st);
    assert(rendered(st.top.children) =~= Seq::empty());
    assert(s.subrange(0, s.len() as int) =~= s);
    lemma_unsteady_on(s, 0, LocView::start(path), st);
    lemma_written_is_normal(s, path);
    lemma_normal_is_exact_only(s, 0, Seq::empty());
}

/// Round trip: a well-formed text whose dividers stand where the writer puts
/// them is read without a repair, and its forest is written as the text
/// itself.
pub proof fn lemma_round_trip(s: Seq<u8>, path: Seq<char>)
    requires
        well_formed(s),
        dividers_exact(s),
    ensures
        rendered(parsed(s, path).0) == s,
        parsed(s, path).1 == Seq::<Diagnostic>::empty(),
{
    lemma_well_formed_reads_clean(s, path);
    lemma_well_formed_is_steady(s, 0, Seq::empty());
    lemma_written_as_itself(s, path);
}

/// The round trip holds of no other text: a text that is read without a
/// repair and written as itself is well formed, and its dividers stand where
/// the writer puts them.
pub proof fn lemma_round_trip_only(s: Seq<u8>, path: Seq<char>)
    requires
        rendered(parsed(s, path).0) == s,
        parsed(s, path).1.len() == 0,
    ensures
        well_formed(s),
        dividers_exact(s),
{
    lemma_clean_iff_well_formed(s, path);
    lemma_well_formed_is_steady(s, 0, Seq::empty());
    lemma_written_is_normal(s, path);
    assert(s.subrange(0, s.len() as int) =~= s);
    lemma_normal_is_exact_only(s, 0, Seq::empty());
}

/// Where a steady text has no redundant divider, the text with its dividers
/// set right is steady, well formed if the text is, and its dividers stand
/// where the writer puts them.
pub proof fn lemma_normal_form_settles(s: Seq<u8>)
    requires
        steady(s),
        dividers_needed(s),
    ensures
        steady(normal_form(s)),
        well_formed(s) ==> well_formed(normal_form(s)),
        dividers_exact(normal_form(s)),
{
    let y = normal_form(s);
    assert(y.subrange(0, y.len() as int) =~= y);
    lemma_normal_is_exact(s, 0, Seq::empty(), y, 0);
}

/// Idempotence of writing: where a steady text, and so where a well-formed
/// text, has no redundant divider, what is written of it is read and
/// written as itself.
pub proof fn lemma_render_idempotent(s: Seq<u8>, path: Seq<char>)
    requires
        steady(s),
        dividers_needed(s),
    ensures
        rendered(parsed(rendered(parsed(s, path).0), path).0) == rendered(parsed(s, path).0),
{
    lemma_normal_form_settles(s);
    lemma_written_is_normal(s, path);
    lemma_written_as_itself(normal_form(s), path);
}

/// Idempotence of writing, of whatever text: what is written of a text is
/// read and written as itself if and only if it is steady and has its
/// dividers where the writer puts them.
pub proof fn lemma_render_idempotent_iff(s: Seq<u8>, path: Seq<char>)
    ensures
        rendered(parsed(rendered(parsed(s, path).0), path).0) == rendered(parsed(s, path).0)
            <==> steady(rendered(parsed(s, path).0)) && dividers_exact(
            rendered(parsed(s, path).0),
        ),
{
    let written = rendered(parsed(s, path).0);
    if steady(written) && dividers_exact(written) {
        lemma_written_as_itself(written, path);
    }
    if rendered(parsed(written, path).0) == written {
        lemma_written_as_itself_only(written, path);
    }
}

/// Where the dividers of a text stand where the writer puts them, the text
/// with its dividers set right is the text itself.
pub proof fn lemma_exact_is_normal(s: Seq<u8>, pos: int, open: Seq<Opening>)
    requires
        0 <= pos <= s.len(),
        dividers_exact_from(s, pos, open),
    ensures
        normal_from(s, pos, open) == s.subrange(pos, s.len() as int),
    decreases s.len() - pos,
{
    let d = next_delimiter(s, pos);
    lemma_next_delimiter(s, pos);
    if d < s.len() {
        let after = open_after(open, word_at(s, pos), delimiter_at(s, pos));
        lemma_exact_is_normal(s, d + 1, after);
        lemma_segment_text(s, pos);
        assert(s.subrange(pos, d + 1) + s.subrange(d + 1, s.len() as int) =~= s.subrange(
            pos,
            s.len() as int,
        ));
    }
}

/// Where the dividers stand where the writer puts them, none is redundant.
pub proof fn lemma_exact_is_needed(s: Seq<u8>, pos: int, open: Seq<Opening>)
    requires
        dividers_exact_from(s, pos, open),
    ensures
        dividers_needed_from(s, pos, open),
    decreases s.len() - pos,
{
    let d = next_delimiter(s, pos);
    if pos >= 0 && d < s.len() {
        lemma_next_delimiter(s, pos);
        lemma_exact_is_needed(s, d + 1, open_after(open, word_at(s, pos), delimiter_at(s, pos)));
    }
}

/// Divider reinsertion: an element that follows a text is written after a
/// divider if the text ends in a word character, and directly after the
/// text if it does not.
pub proof fn lemma_divider_after_text(text: Seq<u8>, elem: ElemView)
    ensures
        rendered(seq![Tree::Text(text), Tree::Elem(elem)]) == text + (if text.len() > 0
            && spec_is_word_char(text.last()) {
            seq![DIVIDER]
        } else {
            Seq::empty()
        }) + elem.name + seq![Delimiter(Direction::Open, elem.delim).byte()] + written_forest(
            elem.children,
            state_after_text(text),
        ).0 + fence_of(elem.name) + seq![Delimiter(Direction::Close, elem.delim).byte()],
{
    let state = state_after_text(text);
    lemma_written_push(Seq::empty(), Tree::Text(text), NodeWriteState::Clean);
    lemma_written_push(seq![Tree::Text(text)], Tree::Elem(elem), NodeWriteState::Clean);
    assert(Seq::<Tree>::empty().push(Tree::Text(text)) =~= seq![Tree::Text(text)]);
    assert(seq![Tree::Text(text)].push(Tree::Elem(elem)) =~= seq![
        Tree::Text(text),
        Tree::Elem(elem),
    ]);
    assert(Seq::<u8>::empty() + text =~= text);
    assert(text + (divider_if(state) + elem.name + seq![
        Delimiter(Direction::Open, elem.delim).byte(),
    ] + written_forest(elem.children, state).0 + fence_of(elem.name) + seq![
        Delimiter(Direction::Close, elem.delim).byte(),
    ]) =~= text + divider_if(state) + elem.name + seq![
        Delimiter(Direction::Open, elem.delim).byte(),
    ] + written_forest(elem.children, state).0 + fence_of(elem.name) + seq![
        Delimiter(Direction::Close, elem.delim).byte(),
    ]);
}

/// A repair that is on record stays on record: one more token leaves the
/// repairs made so far as they are, and adds at most to them.
pub proof fn lemma_step_keeps_repairs(st: ParseState, at: LocView, token: TokenView)
    ensures
        st.errs.is_prefix_of(st.step(at, token).errs),
{
    let after = st.step(at, token);
    assert(after.errs =~= st.errs || after.errs.drop_last() =~= st.errs);
}

/// A repair that is on record stays on record to the end of the text.
pub proof fn lemma_run_keeps_repairs(st: ParseState, tokens: Seq<(LocView, TokenView)>)
    ensures
        st.errs.is_prefix_of(st.run(tokens).errs),
        st.errs.is_prefix_of(st.run(tokens).diagnostics()),
    decreases tokens.len(),
{
    if tokens.len() > 0 {
        let next = st.step(tokens[0].0, tokens[0].1);
        lemma_step_keeps_repairs(st, tokens[0].0, tokens[0].1);
        lemma_run_keeps_repairs(next, tokens.skip(1));
    }
}

/// The elements that are open in a parser state, without the text as a
/// whole, outermost first.
pub open spec fn openings(st: ParseState) -> Seq<Opening> {
    Seq::new(
        st.stack.len(),
        |i: int|
            if i + 1 < st.stack.len() {
                Opening { name: st.stack[i + 1].name, delim: st.stack[i + 1].delim }
            } else {
                Opening { name: st.top.name, delim: st.top.delim }
            },
    )
}

/// The outermost element of a parser state has no name, and counts as
/// opened by a parenthesis.
pub open spec fn rooted(st: ParseState) -> bool {
    if st.stack.len() == 0 {
        st.top.name.len() == 0 && st.top.delim == Delim::Parenthesis
    } else {
        st.stack[0].name.len() == 0 && st.stack[0].delim == Delim::Parenthesis
    }
}

/// What the writer would have written of the open elements `frames`,
/// outermost first, had it written each up to its last child, and the state
/// that it would be in. The outermost is the text as a whole and has no tag.
pub open spec fn open_text(frames: Seq<ElemView>) -> (Seq<u8>, NodeWriteState)
    decreases frames.len(),
{
    if frames.len() == 0 {
        (Seq::empty(), NodeWriteState::Clean)
    } else {
        let (before, state) = open_text(frames.drop_last());
        let frame = frames.last();
        let head = if frames.len() == 1 {
            Seq::empty()
        } else {
            divider_if(state) + frame.name + seq![Delimiter(Direction::Open, frame.delim).byte()]
        };
        let (body, after) = written_forest(frame.children, state);
        (before + head + body, after)
    }
}

/// The open text of a parser state.
pub open spec fn text_so_far(st: ParseState) -> (Seq<u8>, NodeWriteState) {
    open_text(st.stack.push(st.top))
}

/// The same element with one more child.
pub open spec fn grown(frame: ElemView, child: Tree) -> ElemView {
    ElemView {
        name: frame.name,
        delim: frame.delim,
        children: frame.children.push(child),
        loc: frame.loc,
    }
}

/// The open text of open elements and one more inside them: the open text
/// of the former, then the tag and the children of the latter.
proof fn lemma_push_frame(outer: Seq<ElemView>, frame: ElemView)
    requires
        outer.len() > 0,
    ensures
        open_text(outer.push(frame)).0 == open_text(outer).0 + divider_if(open_text(outer).1)
            + frame.name + seq![Delimiter(Direction::Open, frame.delim).byte()] + written_forest(
            frame.children,
            open_text(outer).1,
        ).0,
        open_text(outer.push(frame)).1 == written_forest(frame.children, open_text(outer).1).1,
{
    let frames = outer.push(frame);
    assert(frames.drop_last() =~= outer);
    let (before, state) = open_text(outer);
    let head = divider_if(state) + frame.name + seq![
        Delimiter(Direction::Open, frame.delim).byte(),
    ];
    let body = written_forest(frame.children, state).0;
    assert(before + head + body =~= before + divider_if(state) + frame.name + seq![
        Delimiter(Direction::Open, frame.delim).byte(),
    ] + body);
}

/// One more child in the innermost open element adds what is written for
/// it to the open text.
proof fn lemma_grow(outer: Seq<ElemView>, frame: ElemView, child: Tree)
    ensures
        open_text(outer.push(grown(frame, child))).0 == open_text(outer.push(frame)).0
            + written_tree(child, open_text(outer.push(frame)).1).0,
        open_text(outer.push(grown(frame, child))).1 == written_tree(
            child,
            open_text(outer.push(frame)).1,
        ).1,
{
    let frames = outer.push(frame);
    let more = outer.push(grown(frame, child));
    assert(frames.drop_last() =~= outer);
    assert(more.drop_last() =~= outer);
    let (before, state) = open_text(outer);
    lemma_written_push(frame.children, child, state);
    let head = if frames.len() == 1 {
        Seq::<u8>::empty()
    } else {
        divider_if(state) + frame.name + seq![Delimiter(Direction::Open, frame.delim).byte()]
    };
    let (body, between) = written_forest(frame.children, state);
    let last = written_tree(child, between).0;
    assert(before + head + (body + last) =~= (before + head + body) + last);
}

/// A text child adds its text to the open text, and leaves the state that
/// the text ends in.
proof fn lemma_add_text(st: ParseState, text: Seq<u8>)
    ensures
        text_so_far(st.add(Tree::Text(text))).0 == text_so_far(st).0 + text,
        text_so_far(st.add(Tree::Text(text))).1 == state_after_text(text),
        openings(st.add(Tree::Text(text))) == openings(st),
        rooted(st) ==> rooted(st.add(Tree::Text(text))),
        st.add(Tree::Text(text)).errs == st.errs,
        st.add(Tree::Text(text)).stack == st.stack,
        st.add(Tree::Text(text)).top.name == st.top.name,
        st.add(Tree::Text(text)).top.delim == st.top.delim,
{
    let after = st.add(Tree::Text(text));
    lemma_grow(st.stack, st.top, Tree::Text(text));
    assert(after.top == grown(st.top, Tree::Text(text)));
    assert(openings(after) =~= openings(st));
}

/// An opening tag adds a divider, if the state asks for one, the name and
/// the opening delimiter to the open text.
proof fn lemma_open(st: ParseState, at: LocView, word: Seq<u8>, kind: Delim)
    ensures
        ({
            let after = ParseState {
                stack: st.stack.push(st.top),
                top: ElemView { name: word, delim: kind, children: Seq::empty(), loc: at },
                errs: st.errs,
            };
            &&& text_so_far(after).0 == text_so_far(st).0 + divider_if(text_so_far(st).1) + word
                + seq![Delimiter(Direction::Open, kind).byte()]
            &&& openings(after) == openings(st).push(Opening { name: word, delim: kind })
            &&& rooted(st) ==> rooted(after)
        }),
{
    let top = ElemView { name: word, delim: kind, children: Seq::empty(), loc: at };
    let after = ParseState { stack: st.stack.push(st.top), top, errs: st.errs };
    let frames = st.stack.push(st.top);
    lemma_push_frame(frames, top);
    let (before, state) = open_text(frames);
    assert(before + divider_if(state) + word + seq![Delimiter(Direction::Open, kind).byte()]
        + Seq::<u8>::empty() =~= before + divider_if(state) + word + seq![
        Delimiter(Direction::Open, kind).byte(),
    ]);
    assert(openings(after) =~= openings(st).push(Opening { name: word, delim: kind }));
}

/// A closer that ends the innermost open element adds that element's name,
/// if it is literal, and the closing delimiter to the open text.
proof fn lemma_close(st: ParseState, at: LocView, kind: Delim)
    requires
        st.stack.len() > 0,
        st.top.delim == kind,
    ensures
        text_so_far(st.close(at, kind)).0 == text_so_far(st).0 + fence_of(st.top.name) + seq![
            Delimiter(Direction::Close, kind).byte(),
        ],
        openings(st.close(at, kind)) == openings(st).drop_last(),
        rooted(st) ==> rooted(st.close(at, kind)),
        st.close(at, kind).errs == st.errs,
        st.close(at, kind).stack.len() == st.stack.len() - 1,
{
    let parent = st.stack.last();
    let outer = st.stack.drop_last();
    let after = ParseState { stack: outer, top: grown(parent, Tree::Elem(st.top)), errs: st.errs };
    assert(st.close(at, kind) == after);
    assert(outer.push(parent) =~= st.stack);
    lemma_grow(outer, parent, Tree::Elem(st.top));
    lemma_push_frame(st.stack, st.top);
    let (before, state) = open_text(st.stack);
    let open = divider_if(state) + st.top.name + seq![
        Delimiter(Direction::Open, st.top.delim).byte(),
    ];
    let body = written_forest(st.top.children, state).0;
    let fence = fence_of(st.top.name);
    let close = seq![Delimiter(Direction::Close, kind).byte()];
    assert(written_tree(Tree::Elem(st.top), state).0 == open + body + fence + close);
    assert(text_so_far(after).0 == before + (open + body + fence + close));
    assert(text_so_far(st).0 =~= before + open + body);
    assert(before + (open + body + fence + close) =~= before + open + body + fence + close);
    assert(openings(after) =~= openings(st).drop_last());
}

/// Two tokens are read one after the other, then the rest.
proof fn lemma_run_two(
    st: ParseState,
    first: (LocView, TokenView),
    second: (LocView, TokenView),
    rest: Seq<(LocView, TokenView)>,
)
    ensures
        st.run(seq![first, second] + rest) == st.step(first.0, first.1).step(
            second.0,
            second.1,
        ).run(rest),
{
    let all = seq![first, second] + rest;
    assert(all.skip(1) =~= seq![second] + rest);
    assert(all.skip(1).skip(1) =~= rest);
    assert(all[0] == first);
    assert(all.skip(1)[0] == second);
    reveal_with_fuel(ParseState::run, 3);
}

/// A state in which only the text as a whole is open has written its
/// children and nothing else.
proof fn lemma_closed_text(st: ParseState)
    requires
        st.stack.len() == 0,
    ensures
        text_so_far(st).0 == rendered(st.top.children),
{
    let frames = st.stack.push(st.top);
    assert(frames.drop_last() =~= Seq::empty());
    assert(open_text(frames.drop_last()) == (Seq::<u8>::empty(), NodeWriteState::Clean));
    assert(Seq::<u8>::empty() + Seq::<u8>::empty() + rendered(st.top.children) =~= rendered(
        st.top.children,
    ));
}

/// A tag that fits is read without a repair, changes the open elements as
/// a fitting tag does, and adds its own text to the open text.
proof fn lemma_tag(st: ParseState, at: LocView, word: Seq<u8>, delimiter: Delimiter)
    requires
        rooted(st),
        fits(openings(st), word, delimiter),
    ensures
        ({
            let after = st.step(at, TokenView::Tag(word, delimiter));
            &&& openings(after) == open_after(openings(st), word, delimiter)
            &&& rooted(after)
            &&& after.errs == st.errs
            &&& text_so_far(after).0 == text_so_far(st).0 + tag_text(
                openings(st),
                text_so_far(st).1,
                word,
                delimiter,
            )
        }),
{
    let open = openings(st);
    let before = text_so_far(st).0;
    let byte = seq![delimiter.byte()];
    assert(open.len() == st.stack.len());
    assert(st.stack.len() > 0 ==> open.last().name == st.top.name && open.last().delim
        == st.top.delim);
    assert(swallowed(open, word) == st.swallows(word));
    if st.swallows(word) {
        lemma_add_text(st, word);
        lemma_add_text(st.add(Tree::Text(word)), byte);
        assert(before + word + byte =~= before + (Seq::<u8>::empty() + word + byte));
    } else {
        match delimiter.0 {
            Direction::Open => {
                lemma_open(st, at, word, delimiter.1);
                assert(before + divider_if(text_so_far(st).1) + word + byte =~= before + (
                divider_if(text_so_far(st).1) + word + byte));
            },
            Direction::Close => {
                if spec_is_literal(st.top.name) {
                    lemma_close(st, at, delimiter.1);
                    assert(before + word + byte =~= before + (Seq::<u8>::empty() + word + byte));
                } else {
                    lemma_add_text(st, word);
                    lemma_close(st.add(Tree::Text(word)), at, delimiter.1);
                    assert(before + word + Seq::<u8>::empty() + byte =~= before + (Seq::<
                        u8,
                    >::empty() + word + byte));
                }
            },
        }
    }
}

/// A stray closing parenthesis is kept as text: the word before it and the
/// parenthesis are added to the open text, and nothing is open after it.
proof fn lemma_stray(st: ParseState, at: LocView, word: Seq<u8>, delimiter: Delimiter)
    requires
        rooted(st),
        is_stray(openings(st), delimiter),
    ensures
        ({
            let after = st.step(at, TokenView::Tag(word, delimiter));
            &&& openings(after) == open_after(openings(st), word, delimiter)
            &&& rooted(after)
            &&& text_so_far(after).0 == text_so_far(st).0 + tag_text(
                openings(st),
                text_so_far(st).1,
                word,
                delimiter,
            )
        }),
{
    let before = text_so_far(st).0;
    let byte = seq![delimiter.byte()];
    assert(openings(st).len() == st.stack.len());
    let st1 = st.add(Tree::Text(word));
    lemma_add_text(st, word);
    let st2 = st1.report(Diagnostic::Unmatched { at, closer: delimiter.1 });
    assert(st2.stack == st1.stack && st2.top == st1.top);
    lemma_add_text(st2, byte);
    assert(st.step(at, TokenView::Tag(word, delimiter)) == st2.add(Tree::Text(byte)));
    assert(openings(st2) =~= openings(st1));
    assert(before + word + byte =~= before + (Seq::<u8>::empty() + word + byte));
}

/// Reading a text that is steady from `pos` on leaves no element open, and
/// the forest at the end is written as the open text at `pos` followed by
/// the rest of the text with its dividers set right. Where the text is well
/// formed from `pos` on, no repair is added.
proof fn lemma_read_on(s: Seq<u8>, pos: int, at: LocView, st: ParseState)
    requires
        0 <= pos <= s.len(),
        rooted(st),
        steady_from(s, pos, openings(st)),
    ensures
        st.run(tokens_from(s, pos, at)).stack.len() == 0,
        well_formed_from(s, pos, openings(st)) ==> st.run(tokens_from(s, pos, at)).errs
            == st.errs,
        rendered(st.run(tokens_from(s, pos, at)).top.children) == text_so_far(st).0 + normal_from(
            s,
            pos,
            openings(st),
        ),
    decreases s.len() - pos,
{
    let d = next_delimiter(s, pos);
    let so_far = text_so_far(st).0;
    lemma_next_delimiter(s, pos);
    if pos >= s.len() {
        assert(tokens_from(s, pos, at) =~= Seq::empty());
        assert(openings(st).len() == st.stack.len());
        lemma_closed_text(st);
        assert(so_far + s.subrange(pos, s.len() as int) =~= so_far);
    } else if d >= s.len() {
        let rest = s.subrange(pos, s.len() as int);
        let first = (at, TokenView::Chunk(rest));
        let after = st.add(Tree::Text(rest));
        assert(tokens_from(s, pos, at) =~= seq![first]);
        assert(seq![first].skip(1) =~= Seq::empty());
        reveal_with_fuel(ParseState::run, 2);
        assert(st.run(tokens_from(s, pos, at)) == after);
        lemma_add_text(st, rest);
        assert(openings(st).len() == st.stack.len());
        lemma_closed_text(after);
    } else {
        let chunk = chunk_at(s, pos);
        let word = word_at(s, pos);
        let delimiter = delimiter_at(s, pos);
        let first = (at, TokenView::Chunk(chunk));
        let tag_at = at.advance(chunk);
        let second = (tag_at, TokenView::Tag(word, delimiter));
        let next_at = at.advance(s.subrange(pos, d + 1));
        let rest = tokens_from(s, d + 1, next_at);
        lemma_run_two(st, first, second, rest);
        let st1 = st.add(Tree::Text(chunk));
        lemma_add_text(st, chunk);
        let st2 = st1.step(tag_at, TokenView::Tag(word, delimiter));
        if fits(openings(st), word, delimiter) {
            lemma_tag(st1, tag_at, word, delimiter);
        } else {
            lemma_stray(st1, tag_at, word, delimiter);
        }
        lemma_read_on(s, d + 1, next_at, st2);
        let tag = tag_text(openings(st), state_after_text(chunk), word, delimiter);
        let tail = normal_from(s, d + 1, openings(st2));
        assert((so_far + chunk + tag) + tail =~= so_far + (chunk + tag + tail));
    }
}

/// A tag that does not fit is repaired, and the repair is put on record.
proof fn lemma_misfit(st: ParseState, at: LocView, word: Seq<u8>, delimiter: Delimiter)
    requires
        rooted(st),
        !fits(openings(st), word, delimiter),
    ensures
        st.step(at, TokenView::Tag(word, delimiter)).errs.len() == st.errs.len() + 1,
{
    let open = openings(st);
    assert(open.len() == st.stack.len());
    assert(st.stack.len() > 0 ==> open.last().name == st.top.name && open.last().delim
        == st.top.delim);
    assert(swallowed(open, word) == st.swallows(word));
}

/// Reading a text that is not well formed from `pos` on puts a repair on
/// record.
proof fn lemma_misread_on(s: Seq<u8>, pos: int, at: LocView, st: ParseState)
    requires
        0 <= pos <= s.len(),
        rooted(st),
        !well_formed_from(s, pos, openings(st)),
    ensures
        st.run(tokens_from(s, pos, at)).diagnostics().len() > st.errs.len(),
    decreases s.len() - pos,
{
    let d = next_delimiter(s, pos);
    lemma_next_delimiter(s, pos);
    if pos >= s.len() {
        assert(tokens_from(s, pos, at) =~= Seq::empty());
        assert(openings(st).len() == st.stack.len());
    } else if d >= s.len() {
        let rest = s.subrange(pos, s.len() as int);
        let first = (at, TokenView::Chunk(rest));
        let after = st.add(Tree::Text(rest));
        assert(tokens_from(s, pos, at) =~= seq![first]);
        assert(seq![first].skip(1) =~= Seq::empty());
        reveal_with_fuel(ParseState::run, 2);
        assert(st.run(tokens_from(s, pos, at)) == after);
        assert(openings(st).len() == st.stack.len());
    } else {
        let chunk = chunk_at(s, pos);
        let word = word_at(s, pos);
        let delimiter = delimiter_at(s, pos);
        let first = (at, TokenView::Chunk(chunk));
        let tag_at = at.advance(chunk);
        let second = (tag_at, TokenView::Tag(word, delimiter));
        let next_at = at.advance(s.subrange(pos, d + 1));
        let rest = tokens_from(s, d + 1, next_at);
        lemma_run_two(st, first, second, rest);
        let st1 = st.add(Tree::Text(chunk));
        lemma_add_text(st, chunk);
        let st2 = st1.step(tag_at, TokenView::Tag(word, delimiter));
        if fits(openings(st), word, delimiter) {
            lemma_tag(st1, tag_at, word, delimiter);
            lemma_misread_on(s, d + 1, next_at, st2);
        } else {
            lemma_misfit(st1, tag_at, word, delimiter);
            lemma_run_keeps_repairs(st2, rest);
        }
    }
}

/// Where the text with its dividers set right is the text itself, the
/// dividers stand where the writer puts them.
proof fn lemma_normal_is_exact_only(s: Seq<u8>, pos: int, open: Seq<Opening>)
    requires
        0 <= pos <= s.len(),
        normal_from(s, pos, open) == s.subrange(pos, s.len() as int),
    ensures
        dividers_exact_from(s, pos, open),
    decreases s.len() - pos,
{
    let d = next_delimiter(s, pos);
    lemma_next_delimiter(s, pos);
    if d < s.len() {
        let chunk = chunk_at(s, pos);
        let word = word_at(s, pos);
        let delimiter = delimiter_at(s, pos);
        let wanted = divider_wanted(open, state_after_text(chunk), word, delimiter);
        let after = open_after(open, word, delimiter);
        let seg = segment(s, pos, open);
        let rest = normal_from(s, d + 1, after);
        let tail = s.subrange(pos, s.len() as int);
        let divider = if wanted {
            seq![DIVIDER]
        } else {
            Seq::<u8>::empty()
        };
        lemma_word_start(s, pos, d);
        lemma_segment_text(s, pos);
        lemma_delimiter_bytes(delimiter, s[d]);
        assert(seg =~= chunk + divider + word + seq![delimiter.byte()]);
        assert(tail == seg + rest);
        let here = seg.len() - 1;
        let there = d - pos;
        assert(tail[there] == s[d]);
        assert((seg + rest)[here] == delimiter.byte());
        if here < there {
            assert(tail[here] == s[pos + here]);
        }
        if there < here {
            let before = chunk + divider + word;
            assert((seg + rest)[there] == before[there]);
            if there < chunk.len() {
                assert(before[there] == s[pos + there]);
            } else if there >= chunk.len() + divider.len() {
                let w = d - word.len();
                assert(before[there] == word[there - chunk.len() - divider.len()]);
                assert(word[there - chunk.len() - divider.len()] == s[w + (there - chunk.len()
                    - divider.len())]);
            }
        }
        assert(here == there);
        assert(tail.len() == seg.len() + rest.len());
        assert(tail.len() == s.len() - pos);
        assert(rest =~= s.subrange(d + 1, s.len() as int)) by {
            assert forall|i: int| 0 <= i < rest.len() implies rest[i] == s.subrange(
                d + 1,
                s.len() as int,
            )[i] by {
                assert((seg + rest)[seg.len() + i] == rest[i]);
                assert(tail[seg.len() + i] == s[pos + seg.len() + i]);
            }
        }
        lemma_normal_is_exact_only(s, d + 1, after);
    }
}

/// The number of delimiters in `s`.
spec fn brackets(s: Seq<u8>) -> nat
    decreases s.len(),
{
    if s.len() == 0 {
        0
    } else {
        brackets(s.drop_last()) + if is_delimiter_byte(s.last()) {
            1nat
        } else {
            0nat
        }
    }
}

/// Two texts joined have the delimiters of both.
proof fn lemma_brackets_concat(a: Seq<u8>, b: Seq<u8>)
    ensures
        brackets(a + b) == brackets(a) + brackets(b),
    decreases b.len(),
{
    if b.len() == 0 {
        assert(a + b =~= a);
    } else {
        lemma_brackets_concat(a, b.drop_last());
        assert((a + b).drop_last() =~= a + b.drop_last());
    }
}

/// A text of one character has one delimiter or none.
proof fn lemma_brackets_one(c: u8)
    ensures
        brackets(seq![c]) == if is_delimiter_byte(c) {
            1nat
        } else {
            0nat
        },
{
    assert(seq![c].drop_last() =~= Seq::<u8>::empty());
    reveal_with_fuel(brackets, 2);
}

/// From where the lexer stands to the end, a text has one delimiter more
/// than behind the next delimiter, and none if no delimiter is left.
proof fn lemma_brackets_left(s: Seq<u8>, pos: int)
    requires
        0 <= pos <= s.len(),
    ensures
        next_delimiter(s, pos) < s.len() ==> brackets(s.subrange(pos, s.len() as int)) == 1
            + brackets(s.subrange(next_delimiter(s, pos) + 1, s.len() as int)),
        next_delimiter(s, pos) >= s.len() ==> brackets(s.subrange(pos, s.len() as int)) == 0,
    decreases s.len() - pos,
{
    let tail = s.subrange(pos, s.len() as int);
    if pos < s.len() {
        let next = s.subrange(pos + 1, s.len() as int);
        assert(tail =~= seq![s[pos]] + next);
        lemma_brackets_concat(seq![s[pos]], next);
        lemma_brackets_one(s[pos]);
        if !is_delimiter_byte(s[pos]) {
            lemma_brackets_left(s, pos + 1);
        }
    }
}

/// What is written for a tree has the same number of delimiters in
/// whatever state it is written.
proof fn lemma_tree_brackets(tree: Tree, one: NodeWriteState, other: NodeWriteState)
    ensures
        brackets(written_tree(tree, one).0) == brackets(written_tree(tree, other).0),
    decreases tree,
{
    match tree {
        Tree::Text(_) => {},
        Tree::Elem(elem) => {
            lemma_forest_brackets(elem.children, one, other);
            lemma_elem_brackets(elem, one);
            lemma_elem_brackets(elem, other);
        },
    }
}

/// What is written for an element has the delimiters of its name, of its
/// children, of its name again if it is literal, and two more.
proof fn lemma_elem_brackets(elem: ElemView, state: NodeWriteState)
    ensures
        brackets(written_tree(Tree::Elem(elem), state).0) == brackets(elem.name) + brackets(
            written_forest(elem.children, state).0,
        ) + brackets(fence_of(elem.name)) + 2,
{
    let open = seq![Delimiter(Direction::Open, elem.delim).byte()];
    let close = seq![Delimiter(Direction::Close, elem.delim).byte()];
    let body = written_forest(elem.children, state).0;
    let t1 = divider_if(state) + elem.name;
    let t2 = t1 + open;
    let t3 = t2 + body;
    let t4 = t3 + fence_of(elem.name);
    lemma_brackets_concat(divider_if(state), elem.name);
    lemma_brackets_concat(t1, open);
    lemma_brackets_concat(t2, body);
    lemma_brackets_concat(t3, fence_of(elem.name));
    lemma_brackets_concat(t4, close);
    lemma_brackets_one(DIVIDER);
    lemma_brackets_one(Delimiter(Direction::Open, elem.delim).byte());
    lemma_brackets_one(Delimiter(Direction::Close, elem.delim).byte());
    assert(written_tree(Tree::Elem(elem), state).0 == t4 + close);
}

/// What is written for a forest has the same number of delimiters in
/// whatever state it is written.
proof fn lemma_forest_brackets(forest: Seq<Tree>, one: NodeWriteState, other: NodeWriteState)
    ensures
        brackets(written_forest(forest, one).0) == brackets(written_forest(forest, other).0),
    decreases forest,
{
    if forest.len() > 0 {
        lemma_forest_brackets(forest.drop_last(), one, other);
        let head_one = written_forest(forest.drop_last(), one);
        let head_other = written_forest(forest.drop_last(), other);
        lemma_tree_brackets(forest.last(), head_one.1, head_other.1);
        lemma_brackets_concat(head_one.0, written_tree(forest.last(), head_one.1).0);
        lemma_brackets_concat(head_other.0, written_tree(forest.last(), head_other.1).0);
    }
}

/// The marker for a delimiter is written with three delimiters.
proof fn lemma_marker_brackets(delimiter: Delimiter, state: NodeWriteState)
    ensures
        brackets(written_tree(escaped(delimiter), state).0) == 3,
{
    let text = Tree::Text(seq![delimiter.byte()]);
    lemma_written_push(Seq::empty(), text, state);
    assert(Seq::<Tree>::empty().push(text) =~= seq![text]);
    assert(Seq::<u8>::empty() + seq![delimiter.byte()] =~= seq![delimiter.byte()]);
    lemma_delimiter_bytes(delimiter, 0);
    lemma_brackets_one(delimiter.byte());
    lemma_brackets_one(ESCAPER);
    match escaped(delimiter) {
        Tree::Elem(shell) => {
            lemma_elem_brackets(shell, state);
            assert(shell.name =~= seq![ESCAPER]);
            assert(shell.children =~= seq![text]);
            assert(fence_of(shell.name) == shell.name);
        },
        Tree::Text(_) => {},
    }
}

/// An element that was never closed is written, melted, with the delimiters
/// of its name and of its children, and three more.
proof fn lemma_melted_brackets(elem: ElemView, state: NodeWriteState)
    ensures
        brackets(written_forest(elem.melted(), state).0) == brackets(elem.name) + brackets(
            written_forest(elem.children, NodeWriteState::Clean).0,
        ) + 3,
{
    let marker = escaped(Delimiter(Direction::Open, elem.delim));
    let name = Tree::Text(elem.name);
    let head = seq![name, marker];
    let after_name = state_after_text(elem.name);
    lemma_written_push(Seq::empty(), name, state);
    lemma_written_push(seq![name], marker, state);
    assert(Seq::<Tree>::empty().push(name) =~= seq![name]);
    assert(seq![name].push(marker) =~= head);
    assert(Seq::<u8>::empty() + elem.name =~= elem.name);
    lemma_marker_brackets(Delimiter(Direction::Open, elem.delim), after_name);
    lemma_brackets_concat(elem.name, written_tree(marker, after_name).0);
    lemma_written_concat(head, elem.children, state);
    lemma_brackets_concat(
        written_forest(head, state).0,
        written_forest(elem.children, NodeWriteState::Clean).0,
    );
    assert(elem.melted() =~= head + elem.children);
}

/// The forest at the end of the text is written with the delimiters of the
/// open text, and two more for each element that is still open.
proof fn lemma_forest_brackets_open(frames: Seq<ElemView>)
    requires
        frames.len() >= 1,
    ensures
        brackets(rendered(frames[0].children + melt_all(frames.skip(1)))) == brackets(
            open_text(frames).0,
        ) + 2 * (frames.len() - 1),
    decreases frames.len(),
{
    let forest = frames[0].children + melt_all(frames.skip(1));
    if frames.len() == 1 {
        assert(frames.skip(1) =~= Seq::empty());
        assert(forest =~= frames[0].children);
        assert(frames.drop_last() =~= Seq::empty());
        assert(open_text(frames.drop_last()) == (Seq::<u8>::empty(), NodeWriteState::Clean));
        assert(Seq::<u8>::empty() + Seq::<u8>::empty() + rendered(frames[0].children)
            =~= rendered(frames[0].children));
    } else {
        let outer = frames.drop_last();
        let last = frames.last();
        lemma_forest_brackets_open(outer);
        assert(frames.skip(1).drop_last() =~= outer.skip(1));
        let before = outer[0].children + melt_all(outer.skip(1));
        assert(forest =~= before + last.melted());
        lemma_written_concat(before, last.melted(), NodeWriteState::Clean);
        let between = written_forest(before, NodeWriteState::Clean).1;
        lemma_brackets_concat(rendered(before), written_forest(last.melted(), between).0);
        lemma_melted_brackets(last, between);
        let (text, state) = open_text(outer);
        let head = divider_if(state) + last.name + seq![
            Delimiter(Direction::Open, last.delim).byte(),
        ];
        let body = written_forest(last.children, state).0;
        lemma_forest_brackets(last.children, state, NodeWriteState::Clean);
        lemma_brackets_concat(divider_if(state), last.name);
        lemma_brackets_concat(
            divider_if(state) + last.name,
            seq![Delimiter(Direction::Open, last.delim).byte()],
        );
        lemma_brackets_one(DIVIDER);
        lemma_brackets_one(Delimiter(Direction::Open, last.delim).byte());
        lemma_brackets_concat(text, head);
        lemma_brackets_concat(text + head, body);
    }
}

/// The forest of a parser state is written with the delimiters of its open
/// text, and two more for each element that is still open.
proof fn lemma_state_brackets(st: ParseState)
    ensures
        brackets(rendered(st.forest())) == brackets(text_so_far(st).0) + 2 * st.stack.len(),
{
    let frames = st.stack.push(st.top);
    lemma_forest_brackets_open(frames);
    if st.stack.len() == 0 {
        assert(frames.skip(1) =~= Seq::empty());
        assert(st.top.children + melt_all(frames.skip(1)) =~= st.top.children);
    } else {
        assert(frames.skip(1) =~= st.unterminated());
    }
}

/// A closer that neither fits nor is a stray closing parenthesis leaves the
/// open elements as they are, and adds three delimiters or more to the open
/// text.
proof fn lemma_mismatch(st: ParseState, at: LocView, word: Seq<u8>, delimiter: Delimiter)
    requires
        rooted(st),
        !fits(openings(st), word, delimiter),
        !is_stray(openings(st), delimiter),
    ensures
        ({
            let after = st.step(at, TokenView::Tag(word, delimiter));
            &&& openings(after) == openings(st)
            &&& rooted(after)
            &&& brackets(text_so_far(after).0) >= brackets(text_so_far(st).0) + 3
        }),
{
    let open = openings(st);
    assert(open.len() == st.stack.len());
    assert(st.stack.len() > 0 ==> open.last().name == st.top.name && open.last().delim
        == st.top.delim);
    assert(swallowed(open, word) == st.swallows(word));
    let worded = if spec_is_literal(st.top.name) {
        st
    } else {
        st.add(Tree::Text(word))
    };
    lemma_add_text(st, word);
    lemma_brackets_concat(text_so_far(st).0, word);
    let marker = escaped(Delimiter(Direction::Open, worded.top.delim));
    let reported = worded.report(
        Diagnostic::Mismatch {
            at,
            closer: delimiter.1,
            name: worded.top.name,
            opener: worded.top.delim,
            opened_at: worded.top.loc,
        },
    );
    let after = reported.add(marker);
    assert(st.step(at, TokenView::Tag(word, delimiter)) == after);
    assert(after.top == grown(worded.top, marker));
    lemma_grow(worded.stack, worded.top, marker);
    let state = text_so_far(worded).1;
    lemma_brackets_concat(text_so_far(worded).0, written_tree(marker, state).0);
    lemma_marker_brackets(Delimiter(Direction::Open, worded.top.delim), state);
    assert(openings(reported) =~= openings(worded));
    assert(openings(after) =~= openings(st));
}

/// Reading a text to its end gives a forest that is written with no fewer
/// delimiters than the open text and the rest of the text have together,
/// and with more where the text is not steady.
proof fn lemma_unsteady_on(s: Seq<u8>, pos: int, at: LocView, st: ParseState)
    requires
        0 <= pos <= s.len(),
        rooted(st),
    ensures
        brackets(rendered(st.run(tokens_from(s, pos, at)).forest())) >= brackets(
            text_so_far(st).0,
        ) + brackets(s.subrange(pos, s.len() as int)),
        !steady_from(s, pos, openings(st)) ==> brackets(
            rendered(st.run(tokens_from(s, pos, at)).forest()),
        ) > brackets(text_so_far(st).0) + brackets(s.subrange(pos, s.len() as int)),
    decreases s.len() - pos,
{
    let d = next_delimiter(s, pos);
    lemma_next_delimiter(s, pos);
    lemma_brackets_left(s, pos);
    if pos >= s.len() {
        assert(tokens_from(s, pos, at) =~= Seq::empty());
        assert(openings(st).len() == st.stack.len());
        lemma_state_brackets(st);
    } else if d >= s.len() {
        let rest = s.subrange(pos, s.len() as int);
        let first = (at, TokenView::Chunk(rest));
        let after = st.add(Tree::Text(rest));
        assert(tokens_from(s, pos, at) =~= seq![first]);
        assert(seq![first].skip(1) =~= Seq::empty());
        reveal_with_fuel(ParseState::run, 2);
        assert(st.run(tokens_from(s, pos, at)) == after);
        lemma_add_text(st, rest);
        lemma_brackets_concat(text_so_far(st).0, rest);
        assert(openings(st).len() == st.stack.len());
        lemma_state_brackets(after);
    } else {
        let chunk = chunk_at(s, pos);
        let word = word_at(s, pos);
        let delimiter = delimiter_at(s, pos);
        let first = (at, TokenView::Chunk(chunk));
        let tag_at = at.advance(chunk);
        let second = (tag_at, TokenView::Tag(word, delimiter));
        let next_at = at.advance(s.subrange(pos, d + 1));
        let rest = tokens_from(s, d + 1, next_at);
        lemma_run_two(st, first, second, rest);
        let st1 = st.add(Tree::Text(chunk));
        lemma_add_text(st, chunk);
        lemma_brackets_concat(text_so_far(st).0, chunk);
        let st2 = st1.step(tag_at, TokenView::Tag(word, delimiter));
        if fits(openings(st), word, delimiter) || is_stray(openings(st), delimiter) {
            if fits(openings(st), word, delimiter) {
                lemma_tag(st1, tag_at, word, delimiter);
            } else {
                lemma_stray(st1, tag_at, word, delimiter);
            }
            let tag = tag_text(openings(st), state_after_text(chunk), word, delimiter);
            let front = tag.drop_last();
            assert(tag =~= front + seq![delimiter.byte()]);
            lemma_brackets_concat(front, seq![delimiter.byte()]);
            lemma_brackets_one(delimiter.byte());
            lemma_delimiter_bytes(delimiter, s[d]);
            lemma_brackets_concat(text_so_far(st1).0, tag);
        } else {
            lemma_mismatch(st1, tag_at, word, delimiter);
        }
        lemma_unsteady_on(s, d + 1, next_at, st2);
    }
}

/// A chunk and its tag with the divider set right, found in another text,
/// are cut there as they were cut here, and the divider stands there
/// exactly if the writer wants it.
proof fn lemma_normal_segment(s: Seq<u8>, pos: int, open: Seq<Opening>, y: Seq<u8>, ypos: int)
    requires
        0 <= pos <= s.len(),
        next_delimiter(s, pos) < s.len(),
        divided_at(s, pos) ==> divider_wanted(
            open,
            state_after_text(chunk_at(s, pos)),
            word_at(s, pos),
            delimiter_at(s, pos),
        ),
        0 <= ypos,
        ypos + segment(s, pos, open).len() <= y.len(),
        y.subrange(ypos, ypos + segment(s, pos, open).len()) == segment(s, pos, open),
    ensures
        next_delimiter(y, ypos) == ypos + segment(s, pos, open).len() - 1,
        chunk_at(y, ypos) == chunk_at(s, pos),
        word_at(y, ypos) == word_at(s, pos),
        delimiter_at(y, ypos) == delimiter_at(s, pos),
        divided_at(y, ypos) == divider_wanted(
            open,
            state_after_text(chunk_at(s, pos)),
            word_at(s, pos),
            delimiter_at(s, pos),
        ),
{
    let d = next_delimiter(s, pos);
    let chunk = chunk_at(s, pos);
    let word = word_at(s, pos);
    let delimiter = delimiter_at(s, pos);
    let wanted = divider_wanted(open, state_after_text(chunk), word, delimiter);
    let divider = if wanted {
        seq![DIVIDER]
    } else {
        Seq::<u8>::empty()
    };
    let seg = segment(s, pos, open);
    lemma_next_delimiter(s, pos);
    lemma_word_start(s, pos, d);
    lemma_delimiter_bytes(delimiter, s[d]);
    assert(seg =~= chunk + divider + word + seq![delimiter.byte()]);
    let here = y.subrange(ypos, ypos + seg.len());
    let cy = ypos + chunk.len();
    let wy = cy + divider.len();
    let dy = wy + word.len();
    assert(y.subrange(ypos, cy) =~= chunk) by {
        assert forall|i: int| 0 <= i < chunk.len() implies y.subrange(ypos, cy)[i] == chunk[i] by {
            assert(here[i] == y[ypos + i]);
        }
    }
    assert(y.subrange(wy, dy) =~= word) by {
        assert forall|i: int| 0 <= i < word.len() implies y.subrange(wy, dy)[i] == word[i] by {
            assert(here[chunk.len() + divider.len() + i] == y[wy + i]);
        }
    }
    if wanted {
        assert(here[chunk.len() as int] == y[wy - 1]);
    }
    assert(here[dy - ypos] == y[dy]);
    lemma_same_cut(s, pos, y, ypos, wanted);
}

/// A steady text without a redundant divider, with its dividers set right
/// and found at the end of another text, is steady there, well formed
/// there if it is well formed, and its dividers stand where the writer puts
/// them.
proof fn lemma_normal_is_exact(s: Seq<u8>, pos: int, open: Seq<Opening>, y: Seq<u8>, ypos: int)
    requires
        0 <= pos <= s.len(),
        steady_from(s, pos, open),
        dividers_needed_from(s, pos, open),
        0 <= ypos <= y.len(),
        y.subrange(ypos, y.len() as int) == normal_from(s, pos, open),
    ensures
        steady_from(y, ypos, open),
        well_formed_from(s, pos, open) ==> well_formed_from(y, ypos, open),
        dividers_exact_from(y, ypos, open),
    decreases s.len() - pos,
{
    let d = next_delimiter(s, pos);
    let tail = y.subrange(ypos, y.len() as int);
    lemma_next_delimiter(s, pos);
    if d >= s.len() {
        assert(tail == s.subrange(pos, s.len() as int));
        assert(tail.len() == s.len() - pos);
        assert forall|i: int| ypos <= i < y.len() implies !is_delimiter_byte(#[trigger] y[i]) by {
            assert(tail[i - ypos] == y[i]);
            assert(s.subrange(pos, s.len() as int)[i - ypos] == s[pos + (i - ypos)]);
            assert(!is_delimiter_byte(s[pos + (i - ypos)]));
        }
        lemma_first_delimiter(y, ypos, y.len() as int);
    } else {
        let seg = segment(s, pos, open);
        let after = open_after(open, word_at(s, pos), delimiter_at(s, pos));
        let rest = normal_from(s, d + 1, after);
        assert(normal_from(s, pos, open) =~= seg + rest);
        assert(tail.len() == seg.len() + rest.len());
        assert(y.subrange(ypos, ypos + seg.len()) =~= seg) by {
            assert forall|i: int| 0 <= i < seg.len() implies y.subrange(ypos, ypos + seg.len())[i]
                == seg[i] by {
                assert(tail[i] == y[ypos + i]);
            }
        }
        assert(y.subrange(ypos + seg.len(), y.len() as int) =~= rest) by {
            assert forall|i: int| 0 <= i < rest.len() implies y.subrange(
                ypos + seg.len(),
                y.len() as int,
            )[i] == rest[i] by {
                assert(tail[seg.len() + i] == y[ypos + seg.len() + i]);
            }
        }
        lemma_normal_segment(s, pos, open, y, ypos);
        lemma_normal_is_exact(s, d + 1, after, y, ypos + seg.len());
    }
}

} // verus!
