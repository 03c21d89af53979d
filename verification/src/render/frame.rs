use vstd::prelude::*;

use crate::block::{AssistantBlock, Image, UserBlock};
use crate::turn::{Turn, TurnItem};
use crate::user_input::{UserInput, UserSource};
use crate::value::{Author, Text, is_blank, is_white_space};

use crate::step::{lemma_filter_map_empty, lemma_filter_map_last};
use crate::strings::push_char;

use super::wire::{WireBlockSpec, WireMessage, WireSpec, WireUserBlock, message_matches};

verus! {

pub open spec fn escape_text_char(c: char) -> Seq<char> {
    if c == '&' {
        "&amp;"@
    } else if c == '<' {
        "&lt;"@
    } else if c == '>' {
        "&gt;"@
    } else {
        seq![c]
    }
}

pub open spec fn escape_attr_char(c: char) -> Seq<char> {
    if c == '"' {
        "&quot;"@
    } else {
        escape_text_char(c)
    }
}

/// `&`, `<` and `>` replaced by their character references.
pub open spec fn escape_text(s: Seq<char>) -> Seq<char>
    decreases s.len(),
{
    if s.len() == 0 {
        Seq::empty()
    } else {
        escape_text(s.drop_last()) + escape_text_char(s.last())
    }
}

/// As `escape_text`, and `"` replaced by `&quot;` too.
pub open spec fn escape_attr(s: Seq<char>) -> Seq<char>
    decreases s.len(),
{
    if s.len() == 0 {
        Seq::empty()
    } else {
        escape_attr(s.drop_last()) + escape_attr_char(s.last())
    }
}

/// Escaped text holds no `<` and no `>`, so a body cannot open or close a
/// frame.
pub proof fn lemma_escaped_text_has_no_markup(s: Seq<char>)
    ensures
        forall|i: int|
            0 <= i < escape_text(s).len() ==> #[trigger] escape_text(s)[i] != '<' && escape_text(
                s,
            )[i] != '>',
    decreases s.len(),
{
    reveal_strlit("&amp;");
    reveal_strlit("&lt;");
    reveal_strlit("&gt;");
    if s.len() > 0 {
        lemma_escaped_text_has_no_markup(s.drop_last());
        let rest = escape_text(s.drop_last());
        let tail = escape_text_char(s.last());
        assert forall|i: int| 0 <= i < escape_text(s).len() implies #[trigger] escape_text(s)[i]
            != '<' && escape_text(s)[i] != '>' by {
            if i < rest.len() {
                assert(escape_text(s)[i] == rest[i]);
            } else {
                assert(escape_text(s)[i] == tail[i - rest.len()]);
            }
        }
    }
}

/// An escaped attribute value holds no `"`, `<` or `>`, so it cannot end
/// its attribute or the opening tag.
pub proof fn lemma_escaped_attr_has_no_markup(s: Seq<char>)
    ensures
        forall|i: int|
            0 <= i < escape_attr(s).len() ==> #[trigger] escape_attr(s)[i] != '"' && escape_attr(
                s,
            )[i] != '<' && escape_attr(s)[i] != '>',
    decreases s.len(),
{
    reveal_strlit("&amp;");
    reveal_strlit("&lt;");
    reveal_strlit("&gt;");
    reveal_strlit("&quot;");
    if s.len() > 0 {
        lemma_escaped_attr_has_no_markup(s.drop_last());
        let rest = escape_attr(s.drop_last());
        let tail = escape_attr_char(s.last());
        assert forall|i: int| 0 <= i < escape_attr(s).len() implies #[trigger] escape_attr(s)[i]
            != '"' && escape_attr(s)[i] != '<' && escape_attr(s)[i] != '>' by {
            if i < rest.len() {
                assert(escape_attr(s)[i] == rest[i]);
            } else {
                assert(escape_attr(s)[i] == tail[i - rest.len()]);
            }
        }
    }
}

/// `t` holds, from index `i`, one of the character references that escaping
/// writes: `&amp;`, `&lt;`, `&gt;`, and in attribute values also `&quot;`.
pub open spec fn reference_at(t: Seq<char>, i: int, attr: bool) -> bool {
    ||| 0 <= i && i + 5 <= t.len() && t.subrange(i, i + 5) == "&amp;"@
    ||| 0 <= i && i + 4 <= t.len() && t.subrange(i, i + 4) == "&lt;"@
    ||| 0 <= i && i + 4 <= t.len() && t.subrange(i, i + 4) == "&gt;"@
    ||| attr && 0 <= i && i + 6 <= t.len() && t.subrange(i, i + 6) == "&quot;"@
}

/// Reads escaped text back: each character reference becomes its character.
pub open spec fn unescape(t: Seq<char>) -> Seq<char>
    decreases t.len(),
{
    if t.len() == 0 {
        Seq::empty()
    } else if t.len() >= 5 && t.take(5) == "&amp;"@ {
        seq!['&'] + unescape(t.skip(5))
    } else if t.len() >= 4 && t.take(4) == "&lt;"@ {
        seq!['<'] + unescape(t.skip(4))
    } else if t.len() >= 4 && t.take(4) == "&gt;"@ {
        seq!['>'] + unescape(t.skip(4))
    } else if t.len() >= 6 && t.take(6) == "&quot;"@ {
        seq!['"'] + unescape(t.skip(6))
    } else {
        seq![t[0]] + unescape(t.skip(1))
    }
}

spec fn escape_char(c: char, attr: bool) -> Seq<char> {
    if attr {
        escape_attr_char(c)
    } else {
        escape_text_char(c)
    }
}

spec fn escape(s: Seq<char>, attr: bool) -> Seq<char> {
    if attr {
        escape_attr(s)
    } else {
        escape_text(s)
    }
}

proof fn lemma_escape_unfold(s: Seq<char>, attr: bool)
    requires
        s.len() > 0,
    ensures
        escape(s, attr) == escape(s.drop_last(), attr) + escape_char(s.last(), attr),
{
}

proof fn lemma_escape_append(a: Seq<char>, b: Seq<char>, attr: bool)
    ensures
        escape(a + b, attr) == escape(a, attr) + escape(b, attr),
    decreases b.len(),
{
    if b.len() == 0 {
        assert(a + b =~= a);
        assert(escape(b, attr) =~= Seq::<char>::empty());
        assert(escape(a, attr) + escape(b, attr) =~= escape(a, attr));
    } else {
        lemma_escape_append(a, b.drop_last(), attr);
        assert((a + b).drop_last() =~= a + b.drop_last());
        assert((a + b).last() == b.last());
        lemma_escape_unfold(a + b, attr);
        lemma_escape_unfold(b, attr);
        assert(escape(a + b, attr) =~= escape(a, attr) + escape(b, attr));
    }
}

proof fn lemma_unescape_first(c: char, y: Seq<char>, attr: bool)
    ensures
        unescape(escape_char(c, attr) + y) == seq![c] + unescape(y),
{
    reveal_strlit("&amp;");
    reveal_strlit("&lt;");
    reveal_strlit("&gt;");
    reveal_strlit("&quot;");
    let e = escape_char(c, attr);
    let t = e + y;
    assert(t.len() > 0);
    if c == '&' {
        assert(t.take(5) =~= "&amp;"@);
        assert(t.skip(5) =~= y);
    } else if c == '<' {
        assert(t[1] == 'l');
        assert(t.len() >= 5 ==> t.take(5)[1] != "&amp;"@[1]);
        assert(t.take(4) =~= "&lt;"@);
        assert(t.skip(4) =~= y);
    } else if c == '>' {
        assert(t[1] == 'g');
        assert(t.len() >= 5 ==> t.take(5)[1] != "&amp;"@[1]);
        assert(t.take(4)[1] != "&lt;"@[1]);
        assert(t.take(4) =~= "&gt;"@);
        assert(t.skip(4) =~= y);
    } else if attr && c == '"' {
        assert(t[1] == 'q');
        assert(t.take(5)[1] != "&amp;"@[1]);
        assert(t.take(4)[1] != "&lt;"@[1]);
        assert(t.take(4)[1] != "&gt;"@[1]);
        assert(t.take(6) =~= "&quot;"@);
        assert(t.skip(6) =~= y);
    } else {
        assert(e =~= seq![c]);
        assert(t[0] == c);
        assert(t.len() >= 5 ==> t.take(5)[0] != "&amp;"@[0]);
        assert(t.len() >= 4 ==> t.take(4)[0] != "&lt;"@[0]);
        assert(t.len() >= 4 ==> t.take(4)[0] != "&gt;"@[0]);
        assert(t.len() >= 6 ==> t.take(6)[0] != "&quot;"@[0]);
        assert(t.skip(1) =~= y);
    }
}

proof fn lemma_unescape_escape(s: Seq<char>, attr: bool)
    ensures
        unescape(escape(s, attr)) == s,
    decreases s.len(),
{
    if s.len() > 0 {
        let rest = s.skip(1);
        assert(s =~= seq![s[0]] + rest);
        lemma_escape_append(seq![s[0]], rest, attr);
        lemma_escape_unfold(seq![s[0]], attr);
        assert(seq![s[0]].drop_last() =~= Seq::<char>::empty());
        assert(escape(Seq::<char>::empty(), attr) =~= Seq::<char>::empty());
        assert(escape(seq![s[0]], attr) =~= escape_char(s[0], attr));
        lemma_unescape_first(s[0], escape(rest, attr), attr);
        lemma_unescape_escape(rest, attr);
    }
}

proof fn lemma_references_extend(x: Seq<char>, e: Seq<char>, i: int, attr: bool)
    requires
        reference_at(x, i, attr),
    ensures
        reference_at(x + e, i, attr),
{
    let t = x + e;
    if i + 5 <= x.len() {
        assert(t.subrange(i, i + 5) =~= x.subrange(i, i + 5));
    }
    if i + 4 <= x.len() {
        assert(t.subrange(i, i + 4) =~= x.subrange(i, i + 4));
    }
    if i + 6 <= x.len() {
        assert(t.subrange(i, i + 6) =~= x.subrange(i, i + 6));
    }
}

proof fn lemma_ampersands_start_references(s: Seq<char>, attr: bool)
    ensures
        forall|i: int|
            0 <= i < escape(s, attr).len() && #[trigger] escape(s, attr)[i] == '&' ==> reference_at(
                escape(s, attr),
                i,
                attr,
            ),
    decreases s.len(),
{
    reveal_strlit("&amp;");
    reveal_strlit("&lt;");
    reveal_strlit("&gt;");
    reveal_strlit("&quot;");
    if s.len() > 0 {
        lemma_ampersands_start_references(s.drop_last(), attr);
        lemma_escape_unfold(s, attr);
        let x = escape(s.drop_last(), attr);
        let c = s.last();
        let e = escape_char(c, attr);
        let t = escape(s, attr);
        assert forall|i: int| 0 <= i < t.len() && #[trigger] t[i] == '&' implies reference_at(t, i, attr) by {
            if i < x.len() {
                assert(x[i] == '&');
                lemma_references_extend(x, e, i, attr);
            } else {
                assert(t.subrange(x.len() as int, t.len() as int) =~= e);
                assert(e[i - x.len()] == '&');
                assert(forall|j: int| 1 <= j < e.len() ==> e[j] != '&');
                assert(i == x.len());
                if c == '&' {
                    assert(t.subrange(i, i + 5) =~= "&amp;"@);
                } else if c == '<' {
                    assert(t.subrange(i, i + 4) =~= "&lt;"@);
                } else if c == '>' {
                    assert(t.subrange(i, i + 4) =~= "&gt;"@);
                } else if attr && c == '"' {
                    assert(t.subrange(i, i + 6) =~= "&quot;"@);
                } else {
                    assert(e =~= seq![c]);
                }
            }
        }
    }
}

/// Escaping text can be undone: every `&` in escaped text starts `&amp;`,
/// `&lt;` or `&gt;`, and reading those references back gives the text.
pub proof fn lemma_escaped_text_reads_back(s: Seq<char>)
    ensures
        unescape(escape_text(s)) == s,
        forall|i: int|
            0 <= i < escape_text(s).len() && #[trigger] escape_text(s)[i] == '&' ==> reference_at(
                escape_text(s),
                i,
                false,
            ),
{
    lemma_unescape_escape(s, false);
    lemma_ampersands_start_references(s, false);
}

/// Escaping an attribute value can be undone: every `&` in the escaped
/// value starts `&amp;`, `&lt;`, `&gt;` or `&quot;`, and reading those
/// references back gives the value.
pub proof fn lemma_escaped_attr_reads_back(s: Seq<char>)
    ensures
        unescape(escape_attr(s)) == s,
        forall|i: int|
            0 <= i < escape_attr(s).len() && #[trigger] escape_attr(s)[i] == '&' ==> reference_at(
                escape_attr(s),
                i,
                true,
            ),
{
    lemma_unescape_escape(s, true);
    lemma_ampersands_start_references(s, true);
}

/// The parts joined with `sep` between each two.
pub open spec fn join(parts: Seq<Seq<char>>, sep: Seq<char>) -> Seq<char>
    decreases parts.len(),
{
    if parts.len() == 0 {
        Seq::empty()
    } else if parts.len() == 1 {
        parts[0]
    } else {
        join(parts.drop_last(), sep) + sep + parts.last()
    }
}

/// `<message author="…" role="…" kind="…">body</message>`, the author and
/// kind attributes present when given, attribute values and body escaped.
pub open spec fn frame_text(
    author: Option<Seq<char>>,
    role: Seq<char>,
    kind: Option<Seq<char>>,
    body: Seq<char>,
) -> Seq<char> {
    let with_author = match author {
        Some(a) => "<message"@ + " author=\""@ + escape_attr(a) + "\""@,
        None => "<message"@,
    };
    let with_role = with_author + " role=\""@ + role + "\""@;
    let opening = match kind {
        Some(k) => with_role + " kind=\""@ + escape_attr(k) + "\""@,
        None => with_role,
    };
    opening + ">"@ + escape_text(body) + "</message>"@
}

pub open spec fn author_text(author: Option<Author>) -> Option<Seq<char>> {
    match author {
        Some(a) => Some(a@),
        None => None,
    }
}

pub open spec fn source_role(source: UserSource) -> Seq<char> {
    match source {
        UserSource::Human => "user"@,
        UserSource::Runtime { .. } => "runtime"@,
    }
}

pub open spec fn source_kind(source: UserSource) -> Option<Seq<char>> {
    match source {
        UserSource::Human => None,
        UserSource::Runtime { kind } => Some(kind@),
    }
}

/// The texts of the text blocks, in order.
pub open spec fn user_texts(blocks: Seq<UserBlock>) -> Seq<Seq<char>>
    decreases blocks.len(),
{
    if blocks.len() == 0 {
        Seq::empty()
    } else {
        let rest = user_texts(blocks.drop_last());
        match blocks.last() {
            UserBlock::Text { text } => rest.push(text@),
            UserBlock::Image(_) => rest,
        }
    }
}

/// The images, in order.
pub open spec fn user_images(blocks: Seq<UserBlock>) -> Seq<Image>
    decreases blocks.len(),
{
    if blocks.len() == 0 {
        Seq::empty()
    } else {
        let rest = user_images(blocks.drop_last());
        match blocks.last() {
            UserBlock::Image(image) => rest.push(image),
            UserBlock::Text { .. } => rest,
        }
    }
}

pub open spec fn paragraph_break() -> Seq<char> {
    "\n\n"@
}

/// The framed text of a user input: its texts joined by blank lines, with
/// role `user` (human) or `runtime` and the runtime kind.
pub open spec fn user_frame(input: UserInput) -> Seq<char> {
    frame_text(
        author_text(input.author_of()),
        source_role(input.source_of()),
        source_kind(input.source_of()),
        join(user_texts(input.blocks()), paragraph_break()),
    )
}

/// The texts and structured values (as JSON text) of a step, in order;
/// thinking and tool calls are left out.
pub open spec fn step_parts(blocks: Seq<AssistantBlock>) -> Seq<Seq<char>>
    decreases blocks.len(),
{
    if blocks.len() == 0 {
        Seq::empty()
    } else {
        let rest = step_parts(blocks.drop_last());
        match blocks.last() {
            AssistantBlock::Text { text } => rest.push(text@),
            AssistantBlock::Structured { value } => rest.push(value@),
            _ => rest,
        }
    }
}

/// The parts of all the steps of a turn, in order.
pub open spec fn agent_parts(items: Seq<TurnItem>) -> Seq<Seq<char>>
    decreases items.len(),
{
    if items.len() == 0 {
        Seq::empty()
    } else {
        let rest = agent_parts(items.drop_last());
        match items.last() {
            TurnItem::Step(step) => rest + step_parts(step.blocks()),
            TurnItem::ToolResults(_) => rest,
        }
    }
}

/// A block that another agent's frame shows: anything but thinking,
/// redacted thinking and tool calls.
pub open spec fn is_shown(b: AssistantBlock) -> bool {
    !(b is Thinking || b is RedactedThinking || b is ToolCall)
}

/// What a shown block shows: the text of a text block, the JSON text of a
/// structured block.
pub open spec fn shown_text(b: AssistantBlock) -> Seq<char> {
    match b {
        AssistantBlock::Text { text } => text@,
        AssistantBlock::Structured { value } => value@,
        _ => Seq::empty(),
    }
}

/// The parts a step adds to another agent's frame are, in order, every text
/// block and the JSON text of every structured block.
pub proof fn lemma_step_parts_shown(blocks: Seq<AssistantBlock>)
    ensures
        step_parts(blocks) == blocks.filter(|b: AssistantBlock| is_shown(b)).map_values(
            |b: AssistantBlock| shown_text(b),
        ),
    decreases blocks.len(),
{
    let keep = |b: AssistantBlock| is_shown(b);
    let f = |b: AssistantBlock| shown_text(b);
    if blocks.len() == 0 {
        lemma_filter_map_empty(blocks, keep, f);
    } else {
        lemma_step_parts_shown(blocks.drop_last());
        lemma_filter_map_last(blocks, keep, f);
    }
}

/// The parts of a turn's frame are those of its items in item order: a step
/// shows its text and structured blocks, a results item shows nothing.
pub proof fn lemma_agent_parts_in_order(a: Seq<TurnItem>, b: Seq<TurnItem>, item: TurnItem)
    ensures
        agent_parts(a + b) == agent_parts(a) + agent_parts(b),
        agent_parts(seq![item]) == match item {
            TurnItem::Step(step) => step.blocks().filter(|b: AssistantBlock| is_shown(b)).map_values(
                |b: AssistantBlock| shown_text(b),
            ),
            TurnItem::ToolResults(_) => Seq::empty(),
        },
    decreases b.len(),
{
    if b.len() == 0 {
        assert(a + b =~= a);
        assert(agent_parts(a) + agent_parts(b) =~= agent_parts(a));
    } else {
        lemma_agent_parts_in_order(a, b.drop_last(), item);
        assert((a + b).drop_last() =~= a + b.drop_last());
        assert((a + b).last() == b.last());
        assert(agent_parts(a + b) =~= agent_parts(a) + agent_parts(b));
    }
    assert(seq![item].drop_last() =~= Seq::<TurnItem>::empty());
    assert(agent_parts(seq![item].drop_last()) =~= Seq::<Seq<char>>::empty());
    if let TurnItem::Step(step) = item {
        lemma_step_parts_shown(step.blocks());
        assert(Seq::<Seq<char>>::empty() + step_parts(step.blocks()) =~= step_parts(step.blocks()));
    }
}

/// The texts a user input frames are its text blocks, in order.
pub proof fn lemma_user_texts_in_order(blocks: Seq<UserBlock>)
    ensures
        user_texts(blocks) == blocks.filter(|b: UserBlock| b is Text).map_values(
            |b: UserBlock| b->text@,
        ),
    decreases blocks.len(),
{
    let keep = |b: UserBlock| b is Text;
    let f = |b: UserBlock| b->text@;
    if blocks.len() == 0 {
        lemma_filter_map_empty(blocks, keep, f);
    } else {
        lemma_user_texts_in_order(blocks.drop_last());
        lemma_filter_map_last(blocks, keep, f);
    }
}

/// The images a user input carries after its frame are its image blocks, in
/// order.
pub proof fn lemma_user_images_in_order(blocks: Seq<UserBlock>)
    ensures
        user_images(blocks) == blocks.filter(|b: UserBlock| b is Image).map_values(
            |b: UserBlock| b->Image_0,
        ),
    decreases blocks.len(),
{
    let keep = |b: UserBlock| b is Image;
    let f = |b: UserBlock| b->Image_0;
    if blocks.len() == 0 {
        lemma_filter_map_empty(blocks, keep, f);
    } else {
        lemma_user_images_in_order(blocks.drop_last());
        lemma_filter_map_last(blocks, keep, f);
    }
}

/// The framed text of another agent's turn, with role `agent`.
pub open spec fn agent_frame(turn: Turn) -> Seq<char> {
    frame_text(
        author_text(turn.author_of()),
        "agent"@,
        None,
        join(agent_parts(turn.entries()), paragraph_break()),
    )
}

pub open spec fn image_blocks(images: Seq<Image>) -> Seq<WireBlockSpec> {
    images.map_values(|i: Image| WireBlockSpec::Image(i))
}

/// A user input as a user message: the framed text, then its images.
pub open spec fn user_message(input: UserInput) -> WireSpec {
    WireSpec::User(
        seq![WireBlockSpec::Text(user_frame(input))] + image_blocks(user_images(input.blocks())),
    )
}

/// Another agent's turn as a user message holding its framed text.
pub open spec fn agent_message(turn: Turn) -> WireSpec {
    WireSpec::User(seq![WireBlockSpec::Text(agent_frame(turn))])
}

proof fn lemma_frame_not_blank(
    author: Option<Seq<char>>,
    role: Seq<char>,
    kind: Option<Seq<char>>,
    body: Seq<char>,
)
    ensures
        !is_blank(frame_text(author, role, kind, body)),
{
    reveal_strlit("<message");
    let f = frame_text(author, role, kind, body);
    assert(f[0] == '<');
    assert(!is_white_space('<'));
}

fn escape_into(out: &mut String, s: &str, attr: bool)
    ensures
        final(out)@ == old(out)@ + if attr {
            escape_attr(s@)
        } else {
            escape_text(s@)
        },
{
    let ghost start = out@;
    for c in it: s.chars()
        invariant
            it.seq() == s@,
            out@ == start + if attr {
                escape_attr(s@.take(it.index() as int))
            } else {
                escape_text(s@.take(it.index() as int))
            },
    {
        let ghost i = it.index();
        assert(s@.take(i + 1).drop_last() =~= s@.take(i));
        assert(s@.take(i + 1).last() == c);
        if c == '&' {
            out.append("&amp;");
        } else if c == '<' {
            out.append("&lt;");
        } else if c == '>' {
            out.append("&gt;");
        } else if attr && c == '"' {
            out.append("&quot;");
        } else {
            push_char(out, c);
            proof {
                assert(escape_text_char(c) =~= seq![c]);
            }
        }
        assert(out@ =~= start + if attr {
            escape_attr(s@.take(i + 1))
        } else {
            escape_text(s@.take(i + 1))
        });
    }
    assert(s@.take(s@.len() as int) =~= s@);
}

pub fn escape_text_string(s: &str) -> (r: String)
    ensures
        r@ == escape_text(s@),
{
    let mut out = String::new();
    escape_into(&mut out, s, false);
    assert(out@ =~= escape_text(s@));
    out
}

pub fn escape_attr_string(s: &str) -> (r: String)
    ensures
        r@ == escape_attr(s@),
{
    let mut out = String::new();
    escape_into(&mut out, s, true);
    assert(out@ =~= escape_attr(s@));
    out
}

pub fn frame(author: Option<&str>, role: &str, kind: Option<&str>, body: &str) -> (r: String)
    ensures
        r@ == frame_text(
            match author {
                Some(a) => Some(a@),
                None => None,
            },
            role@,
            match kind {
                Some(k) => Some(k@),
                None => None,
            },
            body@,
        ),
{
    let mut out = "<message".to_owned();
    match author {
        Some(a) => {
            out.append(" author=\"");
            escape_into(&mut out, a, true);
            out.append("\"");
        },
        None => {},
    }
    out.append(" role=\"");
    out.append(role);
    out.append("\"");
    match kind {
        Some(k) => {
            out.append(" kind=\"");
            escape_into(&mut out, k, true);
            out.append("\"");
        },
        None => {},
    }
    out.append(">");
    escape_into(&mut out, body, false);
    out.append("</message>");
    out
}

pub fn author_str(o: Option<&Author>) -> (r: Option<&str>)
    ensures
        match o {
            Some(a) => r is Some && r->0@ == a@,
            None => r is None,
        },
{
    match o {
        Some(a) => Some(a.as_str()),
        None => None,
    }
}

/// The framed text of a user input and its images.
pub fn user_frame_parts(input: &UserInput) -> (r: (String, Vec<Image>))
    ensures
        r.0@ == user_frame(*input),
        r.1@ == user_images(input.blocks()),
{
    let (role, kind): (&str, Option<&str>) = match input.source() {
        UserSource::Human => ("user", None),
        UserSource::Runtime { kind } => ("runtime", Some(kind.as_str())),
    };
    let author = author_str(input.author());
    let blocks = input.content();
    let mut body = String::new();
    let mut first = true;
    let mut images: Vec<Image> = Vec::new();
    for i in 0..blocks.len()
        invariant
            blocks@ == input.blocks(),
            body@ == join(user_texts(blocks@.take(i as int)), paragraph_break()),
            first == (user_texts(blocks@.take(i as int)).len() == 0),
            images@ == user_images(blocks@.take(i as int)),
    {
        assert(blocks@.take(i + 1).drop_last() =~= blocks@.take(i as int));
        match &blocks[i] {
            UserBlock::Text { text } => {
                let ghost before = user_texts(blocks@.take(i as int));
                if !first {
                    body.append("\n\n");
                }
                body.append(text.as_str());
                first = false;
                proof {
                    reveal_strlit("\n\n");
                    let after = before.push(text@);
                    assert(after.drop_last() =~= before);
                    if before.len() == 0 {
                        assert(body@ =~= join(after, paragraph_break()));
                    }
                }
            },
            UserBlock::Image(image) => {
                images.push(image.clone());
            },
        }
    }
    assert(blocks@.take(blocks@.len() as int) =~= blocks@);
    (frame(author, role, kind, body.as_str()), images)
}

proof fn lemma_join_push(parts: Seq<Seq<char>>, x: Seq<char>, sep: Seq<char>)
    ensures
        join(parts.push(x), sep) == if parts.len() == 0 {
            x
        } else {
            join(parts, sep) + sep + x
        },
{
    assert(parts.push(x).drop_last() =~= parts);
}

/// Appends `part` to a text of parts joined by blank lines.
fn push_part(body: &mut String, first: &mut bool, part: &str, Ghost(parts): Ghost<Seq<Seq<char>>>)
    requires
        old(body)@ == join(parts, paragraph_break()),
        *old(first) == (parts.len() == 0),
    ensures
        final(body)@ == join(parts.push(part@), paragraph_break()),
        *final(first) == false,
{
    proof {
        lemma_join_push(parts, part@, paragraph_break());
        reveal_strlit("\n\n");
    }
    if !*first {
        body.append("\n\n");
    }
    body.append(part);
    *first = false;
}

/// The framed text of another agent's turn.
pub fn agent_frame_text(turn: &Turn) -> (r: String)
    ensures
        r@ == agent_frame(*turn),
{
    let author = author_str(turn.author());
    let items = turn.items();
    let mut body = String::new();
    let mut first = true;
    for i in 0..items.len()
        invariant
            items@ == turn.entries(),
            body@ == join(agent_parts(items@.take(i as int)), paragraph_break()),
            first == (agent_parts(items@.take(i as int)).len() == 0),
    {
        assert(items@.take(i + 1).drop_last() =~= items@.take(i as int));
        let ghost done = agent_parts(items@.take(i as int));
        match &items[i] {
            TurnItem::Step(step) => {
                let blocks = step.content();
                for j in 0..blocks.len()
                    invariant
                        blocks@ == step.blocks(),
                        body@ == join(done + step_parts(blocks@.take(j as int)), paragraph_break()),
                        first == ((done + step_parts(blocks@.take(j as int))).len() == 0),
                {
                    assert(blocks@.take(j + 1).drop_last() =~= blocks@.take(j as int));
                    let ghost so_far = done + step_parts(blocks@.take(j as int));
                    match &blocks[j] {
                        AssistantBlock::Text { text } => {
                            push_part(&mut body, &mut first, text.as_str(), Ghost(so_far));
                            assert(so_far.push(text@) =~= done + step_parts(blocks@.take(j + 1)));
                        },
                        AssistantBlock::Structured { value } => {
                            push_part(&mut body, &mut first, value.as_str(), Ghost(so_far));
                            assert(so_far.push(value@) =~= done + step_parts(blocks@.take(j + 1)));
                        },
                        _ => {},
                    }
                }
                assert(blocks@.take(blocks@.len() as int) =~= blocks@);
            },
            TurnItem::ToolResults(_) => {},
        }
    }
    assert(items@.take(items@.len() as int) =~= items@);
    frame(author, "agent", None, body.as_str())
}

pub(crate) fn framed_text(
    framed: String,
    Ghost(author): Ghost<Option<Seq<char>>>,
    Ghost(role): Ghost<Seq<char>>,
    Ghost(kind): Ghost<Option<Seq<char>>>,
    Ghost(body): Ghost<Seq<char>>,
) -> (r: Text)
    requires
        framed@ == frame_text(author, role, kind, body),
    ensures
        r@ == framed@,
{
    proof {
        lemma_frame_not_blank(author, role, kind, body);
    }
    Text::from_string(framed).unwrap()
}

/// A user input as a user message: its framed text, then its images.
pub fn render_user_frame(input: &UserInput) -> (r: WireMessage)
    ensures
        message_matches(r, user_message(*input)),
{
    let (framed, images) = user_frame_parts(input);
    let text = framed_text(
        framed,
        Ghost(author_text(input.author_of())),
        Ghost(source_role(input.source_of())),
        Ghost(source_kind(input.source_of())),
        Ghost(join(user_texts(input.blocks()), paragraph_break())),
    );
    let mut content: Vec<WireUserBlock> = Vec::new();
    content.push(WireUserBlock::Text { text });
    let ghost specs = seq![WireBlockSpec::Text(user_frame(*input))] + image_blocks(images@);
    for i in 0..images.len()
        invariant
            content@.len() == i + 1,
            specs == seq![WireBlockSpec::Text(user_frame(*input))] + image_blocks(images@),
            forall|k: int|
                0 <= k < content@.len() ==> super::wire::block_matches(
                    #[trigger] content@[k],
                    specs[k],
                ),
    {
        content.push(WireUserBlock::Image(images[i].clone()));
    }
    WireMessage::User { content }
}

/// Another agent's turn as a user message holding its framed text.
pub fn render_agent_frame(turn: &Turn) -> (r: WireMessage)
    ensures
        message_matches(r, agent_message(*turn)),
{
    let framed = agent_frame_text(turn);
    let text = framed_text(
        framed,
        Ghost(author_text(turn.author_of())),
        Ghost("agent"@),
        Ghost(None),
        Ghost(join(agent_parts(turn.entries()), paragraph_break())),
    );
    let mut content: Vec<WireUserBlock> = Vec::new();
    content.push(WireUserBlock::Text { text });
    WireMessage::User { content }
}

} // verus!
