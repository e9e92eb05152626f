//! Pages that a message points at, put in front of it.
use crate::api::request::{get_text, last_user, last_user_index, text_field};
use crate::json;
use crate::json::{tree, trees, Json, Tree};
use crate::text;
use vstd::prelude::*;

verus! {

/// What a fetch is told: where the pages go, the message that points at them,
/// the tokens that one sequence can hold, and the bytes that the conversation
/// takes already.
#[derive(Debug, PartialEq, Eq)]
pub struct WebPlan {
    pub index: usize,
    pub user_text: String,
    pub effective_ctx: u32,
    pub existing_bytes: usize,
}

/// The context of one sequence: with several slots, the context is shared out
/// among them.
pub open spec fn slot_context(ctx_size: u32, batch_size: int) -> int {
    if batch_size > 1 {
        ctx_size as int / batch_size
    } else {
        ctx_size as int
    }
}

/// The bytes of all contents together.
pub open spec fn content_bytes(messages: Seq<Tree>) -> int
    decreases messages.len(),
{
    if messages.len() == 0 {
        0
    } else {
        content_bytes(messages.drop_last()) + vstd::utf8::encode_utf8(
            text_field(messages.last(), "content"@, ""@),
        ).len()
    }
}

/// At most `max`.
pub open spec fn capped(n: int, max: int) -> int {
    if n > max {
        max
    } else {
        n
    }
}

proof fn lemma_content_bytes(messages: Seq<Tree>, i: int)
    requires
        0 <= i < messages.len(),
    ensures
        content_bytes(messages.take(i + 1)) == content_bytes(messages.take(i))
            + vstd::utf8::encode_utf8(text_field(messages[i], "content"@, ""@)).len(),
{
    assert(messages.take(i + 1).drop_last() =~= messages.take(i));
}

fn count_content(messages: &[Json]) -> (r: usize)
    ensures
        r == capped(content_bytes(trees(messages@)), usize::MAX as int),
{
    let ghost all = trees(messages@);
    let mut n: usize = 0;
    let mut i: usize = 0;
    assert(all.take(0) =~= Seq::empty());
    while i < messages.len()
        invariant
            i <= messages@.len(),
            all == trees(messages@),
            n == capped(content_bytes(all.take(i as int)), usize::MAX as int),
        decreases messages.len() - i,
    {
        proof {
            lemma_content_bytes(all, i as int);
        }
        let more: usize = get_text(&messages[i], "content", "").as_bytes().len();
        n = if more > usize::MAX - n {
            usize::MAX
        } else {
            n + more
        };
        i = i + 1;
    }
    assert(all.take(i as int) =~= all);
    n
}

/// Whether pages are looked for at all, and what their fetch is told: only
/// where browsing is on, and only for the last message of the user.
pub fn plan_web(messages: &[Json], web_enabled: bool, ctx_size: u32, batch_size: usize) -> (r:
    Option<WebPlan>)
    ensures
        ({
            let m = trees(messages@);
            let i = last_user(m);
            if web_enabled && i >= 0 {
                &&& r matches Some(p)
                &&& p.index == i
                &&& p.index < messages@.len()
                &&& p.user_text@ == text_field(m[i], "content"@, ""@)
                &&& p.effective_ctx == slot_context(ctx_size, batch_size as int)
                &&& p.existing_bytes == capped(content_bytes(m), usize::MAX as int)
            } else {
                r is None
            }
        }),
{
    if !web_enabled {
        return None;
    }
    let index: usize = match last_user_index(messages) {
        Some(i) => i,
        None => {
            return None;
        },
    };
    assert(trees(messages@)[index as int] == tree(messages@[index as int]));
    let effective_ctx: u32 = if batch_size > 1 {
        assert(0 <= ctx_size as u64 / batch_size as u64 <= ctx_size) by (nonlinear_arith)
            requires
                batch_size > 1,
                ctx_size >= 0,
        ;
        (ctx_size as u64 / batch_size as u64) as u32
    } else {
        ctx_size
    };
    Some(
        WebPlan {
            index,
            user_text: text::copy_text(get_text(&messages[index], "content", "")),
            effective_ctx,
            existing_bytes: count_content(messages),
        },
    )
}

/// A page that a message points at, and what fetching it gave: its text and
/// whether it was cut to fit, or why it could not be had.
#[derive(Debug, PartialEq, Eq)]
pub struct Fetched {
    pub url: String,
    pub page: Result<(String, bool), String>,
}

/// A page as the model sees it.
pub open spec fn page_text(f: Fetched) -> Seq<char> {
    match f.page {
        Ok((content, truncated)) => "[Web content from "@ + f.url@ + (if truncated {
            " [content truncated to fit context]"@
        } else {
            ""@
        }) + "]\n\n"@ + content@,
        Err(e) => "[Failed to fetch "@ + f.url@ + ": "@ + e@ + "]"@,
    }
}

pub open spec fn page_texts(fetched: Seq<Fetched>) -> Seq<Seq<char>> {
    fetched.map_values(|f: Fetched| page_text(f))
}

/// What the model is told about the pages: that they were fetched for it.
pub open spec fn preamble() -> Seq<char> {
    "You have a web browsing capability provided by the inference engine. When the user shares a URL, the engine automatically fetches the page and gives you its plain-text content below. Treat the content below as pages YOU navigated and read. Do NOT claim you cannot browse the web — you just did. You may cite the source URL when answering.\n\n---\n\n"@
}

/// The message that carries the pages.
pub open spec fn web_message(fetched: Seq<Fetched>) -> Tree {
    Tree::Object(
        seq![
            ("role"@, Tree::Text("system"@)),
            (
                "content"@,
                Tree::Text(preamble() + text::joined(page_texts(fetched), "\n\n---\n\n"@)),
            ),
        ],
    )
}

fn show_page(f: &Fetched) -> (r: String)
    ensures
        r@ == page_text(*f),
{
    match &f.page {
        Ok((content, truncated)) => {
            let mut r: String = text::copy_text("[Web content from ");
            r.append(f.url.as_str());
            r.append(
                if *truncated {
                    " [content truncated to fit context]"
                } else {
                    ""
                },
            );
            r.append("]\n\n");
            r.append(content.as_str());
            r
        },
        Err(e) => {
            let mut r: String = text::copy_text("[Failed to fetch ");
            r.append(f.url.as_str());
            r.append(": ");
            r.append(e.as_str());
            r.append("]");
            r
        },
    }
}

/// Puts the pages that the last message of the user points at in front of that
/// message. Without pages the conversation stays as it is.
pub fn inject_web_content(messages: &mut Vec<Json>, index: usize, fetched: &[Fetched])
    requires
        index <= old(messages)@.len(),
    ensures
        fetched@.len() == 0 ==> *final(messages) == *old(messages),
        fetched@.len() > 0 ==> trees(final(messages)@) == trees(old(messages)@).insert(
            index as int,
            web_message(fetched@),
        ),
{
    if fetched.len() == 0 {
        return;
    }
    let mut pages: Vec<String> = Vec::new();
    let ghost all = page_texts(fetched@);
    let mut i: usize = 0;
    assert(text::views(pages@) =~= all.take(0));
    while i < fetched.len()
        invariant
            i <= fetched@.len(),
            all == page_texts(fetched@),
            text::views(pages@) == all.take(i as int),
        decreases fetched.len() - i,
    {
        let ghost before = text::views(pages@);
        pages.push(show_page(&fetched[i]));
        assert(text::views(pages@) =~= before.push(all[i as int]));
        assert(all.take(i + 1) =~= all.take(i as int).push(all[i as int]));
        i = i + 1;
    }
    assert(all.take(i as int) =~= all);
    let mut content: String = text::copy_text(
        "You have a web browsing capability provided by the inference engine. When the user shares a URL, the engine automatically fetches the page and gives you its plain-text content below. Treat the content below as pages YOU navigated and read. Do NOT claim you cannot browse the web — you just did. You may cite the source URL when answering.\n\n---\n\n",
    );
    let body: String = text::join(&pages, "\n\n---\n\n");
    content.append(body.as_str());
    let mut m: Vec<(String, Json)> = Vec::new();
    json::add_member(&mut m, "role", Json::text("system"));
    json::add_member(&mut m, "content", Json::text(content.as_str()));
    let said: Json = Json::object(m);
    assert(tree(said)->Object_0 =~= web_message(fetched@)->Object_0);
    messages.insert(index, said);
    assert(trees(messages@) =~= trees(old(messages)@).insert(index as int, web_message(fetched@)));
}

/// The question itself is untouched: the message that the pages go in front of
/// follows them, and every other keeps its place.
pub proof fn law_the_question_follows_its_pages(
    messages: Seq<Tree>,
    index: int,
    fetched: Seq<Fetched>,
)
    requires
        0 <= index < messages.len(),
    ensures
        ({
            let m = messages.insert(index, web_message(fetched));
            &&& m[index + 1] == messages[index]
            &&& m.take(index) == messages.take(index)
            &&& m.skip(index + 1) == messages.skip(index)
        }),
{
    let m = messages.insert(index, web_message(fetched));
    assert(m.take(index) =~= messages.take(index));
    assert(m.skip(index + 1) =~= messages.skip(index));
}

/// The content of the message that carries the pages.
pub open spec fn web_content(fetched: Seq<Fetched>) -> Seq<char> {
    text_field(web_message(fetched), "content"@, ""@)
}

proof fn lemma_part_of_joined(v: Seq<Seq<char>>, sep: Seq<char>, i: int) -> (r: (
    Seq<char>,
    Seq<char>,
))
    requires
        0 <= i < v.len(),
    ensures
        text::joined(v, sep) == r.0 + v[i] + r.1,
    decreases v.len(),
{
    let none = Seq::<char>::empty();
    if v.len() == 1 {
        assert(none + v[i] + none =~= v[0]);
        (none, none)
    } else if i == v.len() - 1 {
        let front = text::joined(v.drop_last(), sep) + sep;
        assert(front + v[i] + none =~= text::joined(v, sep));
        (front, none)
    } else {
        let (a, b) = lemma_part_of_joined(v.drop_last(), sep, i);
        assert(a + v[i] + (b + sep + v.last()) =~= text::joined(v, sep));
        (a, b + sep + v.last())
    }
}

/// Every page that was fetched is shown to the model under its address, said to
/// be cut where it was, and one that could not be had is named with the reason.
pub proof fn law_every_page_is_shown(fetched: Seq<Fetched>, i: int)
    requires
        0 <= i < fetched.len(),
    ensures
        text::occurs(
            web_content(fetched),
            match fetched[i].page {
                Ok((content, truncated)) => "[Web content from "@ + fetched[i].url@ + (
                if truncated {
                    " [content truncated to fit context]"@
                } else {
                    Seq::empty()
                }) + "]\n\n"@ + content@,
                Err(e) => "[Failed to fetch "@ + fetched[i].url@ + ": "@ + e@ + "]"@,
            },
        ),
        text_field(web_message(fetched), "role"@, ""@) == "system"@,
{
    reveal_strlit("");
    assert(""@ =~= Seq::<char>::empty());
    reveal_strlit("role");
    reveal_strlit("content");
    assert("role"@.len() != "content"@.len());
    let said = preamble() + text::joined(page_texts(fetched), "\n\n---\n\n"@);
    let m = web_message(fetched)->Object_0;
    let none = Seq::<(Seq<char>, Tree)>::empty();
    let role = none.push(("role"@, Tree::Text("system"@)));
    json::law_a_field_is_the_first_of_its_name(role, "content"@, Tree::Text(said), none);
    json::law_a_field_is_the_first_of_its_name(
        none,
        "role"@,
        Tree::Text("system"@),
        seq![("content"@, Tree::Text(said))],
    );
    assert(role.push(("content"@, Tree::Text(said))) + none =~= m);
    assert(role + seq![("content"@, Tree::Text(said))] =~= m);
    assert(web_content(fetched) == said);
    let texts = page_texts(fetched);
    let (a, b) = lemma_part_of_joined(texts, "\n\n---\n\n"@, i);
    let shown = page_text(fetched[i]);
    assert(texts[i] == shown);
    assert(preamble() + a + shown + b =~= said);
    let before = preamble() + a;
    let all = before + shown + b;
    assert(all.subrange(before.len() as int, before.len() as int + shown.len()) =~= shown);
    assert(text::occurs_at(all, shown, before.len() as int));
}

/// The bytes of a conversation are those of its contents, each counted once.
pub proof fn law_contents_are_counted(messages: Seq<Tree>, m: Tree)
    ensures
        content_bytes(Seq::empty()) == 0,
        content_bytes(messages.push(m)) == content_bytes(messages) + vstd::utf8::encode_utf8(
            text_field(m, "content"@, ""@),
        ).len(),
{
    assert(messages.push(m).drop_last() =~= messages);
}

/// The context is shared out evenly among several slots; a single one has it
/// all.
pub proof fn law_slots_share_the_context(ctx_size: u32, slots: int)
    requires
        slots >= 0,
    ensures
        slots <= 1 ==> slot_context(ctx_size, slots) == ctx_size,
        slots > 1 ==> slots * slot_context(ctx_size, slots) <= ctx_size < slots * (slot_context(
            ctx_size,
            slots,
        ) + 1),
{
    if slots > 1 {
        vstd::arithmetic::div_mod::lemma_fundamental_div_mod(ctx_size as int, slots);
        let q = ctx_size as int / slots;
        assert(slots * (q + 1) == slots * q + slots) by (nonlinear_arith);
        assert(0 <= ctx_size as int % slots < slots) by (nonlinear_arith)
            requires
                slots > 1,
        ;
    }
}

} // verus!
