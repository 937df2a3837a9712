use vstd::prelude::*;
use crate::cells::{
    bar_cell, context_percent, context_percent_exec, format_percent_cell, format_savings_cell,
    lemma_context_percent_empty, lemma_context_percent_full, lemma_full_percent_cell, percent_cell,
    savings_cell, usage_color, usage_color_of, usage_percent,
};
use crate::compact::{credits_compact, format_credits_compact};
use crate::path::{fish_shorten_path, fish_shortened, join_with};
use crate::text::{decimal, push_decimal, trim_end, trim_end_exec};

verus! {

/// What the status line reads from the local usage service.
pub struct ApiStatus {
    pub extra_usage_enabled: Option<bool>,
    pub extra_usage_used: Option<u64>,
    pub extra_usage_monthly_limit: Option<u64>,
    pub combined_saved: Option<u64>,
    pub this_week_saved: Option<u64>,
    pub last_week_saved: Option<u64>,
    pub burn_rate_daily: Option<u64>,
}

/// What the status line reads from the session's `context_window` object;
/// the token counts come from its `current_usage`.
pub struct ContextUsage {
    pub context_window_size: Option<u64>,
    pub input_tokens: Option<u64>,
    pub cache_creation_input_tokens: Option<u64>,
    pub cache_read_input_tokens: Option<u64>,
}

/// What the status line reads from the session JSON on stdin, apart from the
/// float-valued fields.
pub struct SessionJson {
    /// `workspace.current_dir`
    pub current_dir: Option<String>,
    /// `model.display_name`
    pub model: Option<String>,
    /// `output_style.name`
    pub output_style: Option<String>,
    /// Whether there is a `cost` object.
    pub has_cost: bool,
    /// `cost.total_lines_added`
    pub total_lines_added: Option<u64>,
    /// `cost.total_lines_removed`
    pub total_lines_removed: Option<u64>,
    /// `context_window`, with the token counts of its `current_usage`.
    pub context: Option<ContextUsage>,
}

/// Everything the status line shows, gathered from the session, the
/// environment, git and the usage service.
pub struct StatusInput {
    pub session: SessionJson,
    /// The user's home directory.
    pub home: String,
    /// The git branch of the current directory; empty outside a work tree.
    pub branch: String,
    /// `cost.total_cost_usd` as shown, with the color of its amount.
    pub total_cost_text: Option<String>,
    /// The rate-limit cells of the second row, rendered.
    pub rate_limit_cells: Vec<String>,
    pub api_status: Option<ApiStatus>,
}

/// The contents of each string.
pub open spec fn string_views(v: Seq<String>) -> Seq<Seq<char>> {
    v.map_values(|c: String| c@)
}

pub open spec fn or_zero(v: Option<u64>) -> nat {
    match v {
        Some(x) => x as nat,
        None => 0,
    }
}

/// The model's name in orange, with the output style after it in gray.
pub open spec fn model_part(input: StatusInput) -> Seq<char> {
    match input.session.model {
        Some(m) => "\x1b[38;5;208m"@ + m@ + match input.session.output_style {
            Some(st) => " \x1b[90m("@ + st@ + ")\x1b[0m"@,
            None => Seq::empty(),
        },
        None => Seq::empty(),
    }
}

/// `(+added -removed)` when the session changed any line.
pub open spec fn lines_part(session: SessionJson) -> Seq<char> {
    let added = or_zero(session.total_lines_added);
    let removed = or_zero(session.total_lines_removed);
    if session.has_cost && (added > 0 || removed > 0) {
        "(\x1b[32m+"@ + decimal(added) + "\x1b[0m \x1b[31m-"@ + decimal(removed) + "\x1b[0m)"@
    } else {
        Seq::empty()
    }
}

/// The extra-usage credits spent over the monthly limit, when extra usage is on.
pub open spec fn extra_usage_part(api: Option<ApiStatus>) -> Option<Seq<char>> {
    match api {
        Some(s) => match (s.extra_usage_enabled, s.extra_usage_used, s.extra_usage_monthly_limit) {
            (Some(true), Some(used), Some(limit)) => Some(
                " \x1b[90m• \x1b[38;5;208m\u{f155}\u{f155}\x1b[0m "@ + usage_color(
                    usage_percent(used as nat, limit as nat),
                ) + credits_compact(used as nat) + "\x1b[90m/"@ + credits_compact(limit as nat)
                    + "\x1b[0m"@,
            ),
            _ => None,
        },
        None => None,
    }
}

/// The extra usage when there is one, else the session's cost.
pub open spec fn cost_part(input: StatusInput) -> Seq<char> {
    match extra_usage_part(input.api_status) {
        Some(e) => e,
        None => match input.total_cost_text {
            Some(t) => if input.session.has_cost {
                " \x1b[90m• \x1b[33m\u{f155}\x1b[0m "@ + t@ + "\x1b[0m"@
            } else {
                Seq::empty()
            },
            None => Seq::empty(),
        },
    }
}

/// The part of the first row after the branch.
pub open spec fn model_and_cost(input: StatusInput) -> Seq<char> {
    if model_part(input).len() == 0 {
        cost_part(input)
    } else {
        " \x1b[90m• \x1b[0m"@ + model_part(input) + cost_part(input)
    }
}

/// The savings cells, when the service reports any saving.
pub open spec fn savings_cells(api: Option<ApiStatus>) -> Seq<Seq<char>> {
    match api {
        Some(s) => {
            let combined = or_zero(s.combined_saved);
            let this_week = or_zero(s.this_week_saved);
            let last_week = or_zero(s.last_week_saved);
            let daily_avg = or_zero(s.burn_rate_daily);
            if combined > 0 || this_week > 0 || last_week > 0 || daily_avg > 0 {
                seq![
                    savings_cell("\x1b[38;5;10m\u{f0c7}\x1b[0m"@, combined),
                    savings_cell("\x1b[90mwk\x1b[0m"@, this_week),
                ] + (if last_week > 0 {
                    seq![savings_cell("\x1b[90mprev\x1b[0m"@, last_week)]
                } else {
                    Seq::empty()
                }) + seq![savings_cell("\x1b[90md/avg\x1b[0m"@, daily_avg)]
            } else {
                Seq::empty()
            }
        },
        None => Seq::empty(),
    }
}

/// The size of the context window, 200000 tokens unless the session says otherwise.
pub open spec fn window_size(c: ContextUsage) -> nat {
    match c.context_window_size {
        Some(w) => w as nat,
        None => 200000,
    }
}

/// The tokens in the context window.
pub open spec fn tokens_used(c: ContextUsage) -> nat {
    or_zero(c.input_tokens) + or_zero(c.cache_creation_input_tokens) + or_zero(
        c.cache_read_input_tokens,
    )
}

/// The context-window cell, when the session reports its context window.
pub open spec fn context_cells(context: Option<ContextUsage>) -> Seq<Seq<char>> {
    match context {
        Some(c) => seq![
            percent_cell(
                "\x1b[38;5;13m\u{f49b}\x1b[0m"@,
                context_percent(window_size(c), tokens_used(c)),
                None,
            ),
        ],
        None => Seq::empty(),
    }
}

/// The cells of the second row: the context window, the rate limits, then savings.
pub open spec fn row_cells(input: StatusInput) -> Seq<Seq<char>> {
    context_cells(input.session.context) + string_views(input.rate_limit_cells@) + savings_cells(
        input.api_status,
    )
}

pub open spec fn second_line(input: StatusInput) -> Seq<char> {
    if row_cells(input).len() == 0 {
        Seq::empty()
    } else {
        "\n"@ + join_with(row_cells(input), " \x1b[90m\u{2022}\x1b[0m "@)
    }
}

/// What `render_statusline(input)` returns: an error line without a current
/// directory; else the shortened directory, the branch with the changed
/// lines (in a git work tree), the model and the cost on the first row, and
/// the usage and savings cells on the second.
/// (The token counts of the context window must add up within a `u64`.)
pub open spec fn statusline_text(input: StatusInput) -> Seq<char> {
    match input.session.current_dir {
        None => "\x1b[31m\u{f071} missing workspace.current_dir\x1b[0m"@,
        Some(dir) => {
            let display_dir = trim_end(fish_shortened(dir@, input.home@) + " "@);
            if input.branch@.len() > 0 {
                "\x1b[36m"@ + display_dir + "\x1b[0m \x1b[38;5;12m\u{f02a2} \x1b[32m"@ + input.branch@
                    + lines_part(input.session) + "\x1b[0m"@ + model_and_cost(input) + second_line(input)
            } else {
                "\x1b[36m"@ + display_dir + "\x1b[0m"@ + model_and_cost(input) + second_line(input)
            }
        },
    }
}

/// Whether `t` occurs in `s`.
pub open spec fn contains_text(s: Seq<char>, t: Seq<char>) -> bool {
    exists|i: int| 0 <= i && i + t.len() <= s.len() && #[trigger] s.subrange(i, i + t.len()) == t
}

/// With a current directory and a model, the first row names the model
/// behind a gray bullet, with the output style after it where there is one,
/// inside a git work tree or outside one.
pub proof fn lemma_model_always_shown(input: StatusInput)
    requires
        input.session.current_dir is Some,
        input.session.model is Some,
    ensures
        contains_text(
            statusline_text(input),
            " \x1b[90m• \x1b[0m\x1b[38;5;208m"@ + input.session.model.unwrap()@ + match input.session.output_style {
                Some(st) => " \x1b[90m("@ + st@ + ")\x1b[0m"@,
                None => Seq::empty(),
            },
        ),
{
    reveal_strlit(" \x1b[90m• \x1b[0m\x1b[38;5;208m");
    reveal_strlit(" \x1b[90m• \x1b[0m");
    reveal_strlit("\x1b[38;5;208m");
    let m = input.session.model.unwrap()@;
    let style = match input.session.output_style {
        Some(st) => " \x1b[90m("@ + st@ + ")\x1b[0m"@,
        None => Seq::empty(),
    };
    let t = " \x1b[90m• \x1b[0m\x1b[38;5;208m"@ + m + style;
    let mp = model_part(input);
    assert(mp.len() > 0);
    let mc = model_and_cost(input);
    assert(mc == " \x1b[90m• \x1b[0m"@ + mp + cost_part(input));
    assert(mc.subrange(0, t.len() as int) =~= t);
    let dir = input.session.current_dir.unwrap();
    let display_dir = trim_end(fish_shortened(dir@, input.home@) + " "@);
    let head = if input.branch@.len() > 0 {
        "\x1b[36m"@ + display_dir + "\x1b[0m \x1b[38;5;12m\u{f02a2} \x1b[32m"@ + input.branch@
            + lines_part(input.session) + "\x1b[0m"@
    } else {
        "\x1b[36m"@ + display_dir + "\x1b[0m"@
    };
    let text = statusline_text(input);
    assert(text =~= head + mc + second_line(input));
    let i = head.len() as int;
    assert(text.subrange(i, i + t.len()) =~= mc.subrange(0, t.len() as int));
}

/// With a current directory, a cost reported by the session and no extra
/// usage from the service, the first row shows the cost behind a gray
/// bullet, with or without a model, inside a git work tree or outside one.
pub proof fn lemma_cost_always_shown(input: StatusInput)
    requires
        input.session.current_dir is Some,
        input.session.has_cost,
        input.total_cost_text is Some,
        input.api_status is None,
    ensures
        contains_text(
            statusline_text(input),
            " \x1b[90m• \x1b[33m\u{f155}\x1b[0m "@ + input.total_cost_text.unwrap()@ + "\x1b[0m"@,
        ),
{
    let t = " \x1b[90m• \x1b[33m\u{f155}\x1b[0m "@ + input.total_cost_text.unwrap()@ + "\x1b[0m"@;
    assert(cost_part(input) == t);
    let mc = model_and_cost(input);
    let front = if model_part(input).len() == 0 {
        Seq::<char>::empty()
    } else {
        " \x1b[90m• \x1b[0m"@ + model_part(input)
    };
    assert(mc =~= front + t);
    let dir = input.session.current_dir.unwrap();
    let display_dir = trim_end(fish_shortened(dir@, input.home@) + " "@);
    let head = if input.branch@.len() > 0 {
        "\x1b[36m"@ + display_dir + "\x1b[0m \x1b[38;5;12m\u{f02a2} \x1b[32m"@ + input.branch@
            + lines_part(input.session) + "\x1b[0m"@
    } else {
        "\x1b[36m"@ + display_dir + "\x1b[0m"@
    };
    let text = statusline_text(input);
    assert(text =~= head + front + t + second_line(input));
    let i = (head.len() + front.len()) as int;
    assert(text.subrange(i, i + t.len()) =~= t);
}

/// In a git work tree the first row is the row outside one with the branch
/// (and the changed lines) put in after the directory: the model, the cost
/// and the second row stay as they are.
pub proof fn lemma_branch_inserted(input: StatusInput, branch: String)
    requires
        input.session.current_dir is Some,
        input.branch@.len() == 0,
        branch@.len() > 0,
    ensures
        exists|k: int|
            0 <= k <= statusline_text(input).len() && #[trigger] statusline_text(
                StatusInput { branch: branch, ..input },
            ) == statusline_text(input).subrange(0, k) + "\x1b[0m \x1b[38;5;12m\u{f02a2} \x1b[32m"@
                + branch@ + lines_part(input.session) + statusline_text(input).subrange(
                k,
                statusline_text(input).len() as int,
            ),
{
    let with = StatusInput { branch: branch, ..input };
    let dir = input.session.current_dir.unwrap();
    let display_dir = trim_end(fish_shortened(dir@, input.home@) + " "@);
    let head = "\x1b[36m"@ + display_dir;
    let seg = "\x1b[0m \x1b[38;5;12m\u{f02a2} \x1b[32m"@ + branch@ + lines_part(input.session);
    let tail = "\x1b[0m"@ + model_and_cost(input) + second_line(input);
    assert(model_and_cost(with) == model_and_cost(input));
    assert(second_line(with) == second_line(input));
    let text = statusline_text(input);
    assert(text =~= head + tail);
    assert(statusline_text(with) =~= head + seg + tail);
    let k = head.len() as int;
    assert(text.subrange(0, k) =~= head);
    assert(text.subrange(k, text.len() as int) =~= tail);
    assert(statusline_text(with) == text.subrange(0, k) + seg + text.subrange(
        k,
        text.len() as int,
    ));
}

/// The context cell counts every token in the window, of whichever kind: two
/// reports of one window whose input, cache-creation and cache-read tokens
/// add up to the same number show the same cell.
pub proof fn lemma_context_cell_counts_all_tokens(a: ContextUsage, b: ContextUsage)
    requires
        a.context_window_size == b.context_window_size,
        or_zero(a.input_tokens) + or_zero(a.cache_creation_input_tokens) + or_zero(
            a.cache_read_input_tokens,
        ) == or_zero(b.input_tokens) + or_zero(b.cache_creation_input_tokens) + or_zero(
            b.cache_read_input_tokens,
        ),
    ensures
        context_cells(Some(a)) == context_cells(Some(b)),
{
}

/// The string at the JSON pointer `pointer` in the JSON document `doc`, as
/// serde_json reads it; `None` where `doc` is no JSON, nothing is at
/// `pointer`, or what is there is no string.
pub uninterp spec fn json_text(doc: Seq<char>, pointer: Seq<char>) -> Option<Seq<char>>;

/// The unsigned integer at the JSON pointer `pointer` in the JSON document
/// `doc`, as serde_json reads it; `None` where there is none.
pub uninterp spec fn json_count(doc: Seq<char>, pointer: Seq<char>) -> Option<u64>;

/// Whether the JSON document `doc` has a value at the JSON pointer `pointer`,
/// as serde_json reads it.
pub uninterp spec fn json_present(doc: Seq<char>, pointer: Seq<char>) -> bool;

/// `serde_json::from_str::<Value>(doc)`, then `pointer(pointer)` and
/// `as_str` on what is there. Claimed: the result is a function of `doc`
/// and `pointer` alone (`json_text`); nothing is said of what a document holds.
#[verifier::external_body]
fn read_json_text(doc: &str, pointer: &str) -> (r: Option<String>)
    ensures
        match r {
            Some(s) => json_text(doc@, pointer@) == Some(s@),
            None => json_text(doc@, pointer@) is None,
        },
{
    match serde_json::from_str::<serde_json::Value>(doc) {
        Ok(value) => value.pointer(pointer).and_then(serde_json::Value::as_str).map(String::from),
        Err(_) => None,
    }
}

/// `serde_json::from_str::<Value>(doc)`, then `pointer(pointer)` and
/// `as_u64` on what is there. Claimed: the result is a function of `doc`
/// and `pointer` alone (`json_count`).
#[verifier::external_body]
fn read_json_count(doc: &str, pointer: &str) -> (r: Option<u64>)
    ensures
        r == json_count(doc@, pointer@),
{
    match serde_json::from_str::<serde_json::Value>(doc) {
        Ok(value) => value.pointer(pointer).and_then(serde_json::Value::as_u64),
        Err(_) => None,
    }
}

/// `serde_json::from_str::<Value>(doc)`, then whether `pointer(pointer)`
/// finds a value. Claimed: the result is a function of `doc` and `pointer`
/// alone (`json_present`).
#[verifier::external_body]
fn read_json_present(doc: &str, pointer: &str) -> (r: bool)
    ensures
        r == json_present(doc@, pointer@),
{
    match serde_json::from_str::<serde_json::Value>(doc) {
        Ok(value) => value.pointer(pointer).is_some(),
        Err(_) => false,
    }
}

/// The contents of an optional string.
pub open spec fn opt_view(o: Option<String>) -> Option<Seq<char>> {
    match o {
        Some(s) => Some(s@),
        None => None,
    }
}

/// What `read_input(text)` reads from the session JSON `text`: each field at
/// its place in the document; `context` where there is a `context_window`.
pub open spec fn reads_session(text: Seq<char>, r: SessionJson) -> bool {
    &&& opt_view(r.current_dir) == json_text(text, "/workspace/current_dir"@)
    &&& opt_view(r.model) == json_text(text, "/model/display_name"@)
    &&& opt_view(r.output_style) == json_text(text, "/output_style/name"@)
    &&& r.has_cost == json_present(text, "/cost"@)
    &&& r.total_lines_added == json_count(text, "/cost/total_lines_added"@)
    &&& r.total_lines_removed == json_count(text, "/cost/total_lines_removed"@)
    &&& match r.context {
        Some(c) => {
            &&& json_present(text, "/context_window"@)
            &&& c.context_window_size == json_count(text, "/context_window/context_window_size"@)
            &&& c.input_tokens == json_count(text, "/context_window/current_usage/input_tokens"@)
            &&& c.cache_creation_input_tokens == json_count(
                text,
                "/context_window/current_usage/cache_creation_input_tokens"@,
            )
            &&& c.cache_read_input_tokens == json_count(
                text,
                "/context_window/current_usage/cache_read_input_tokens"@,
            )
        },
        None => !json_present(text, "/context_window"@),
    }
}

/// A context window in use to its size or beyond, input, cache-creation and
/// cache-read tokens counted together, shows a full bar of five segments and
/// `100`, in red. (For windows up to `2^53 / 100` tokens.)
pub proof fn lemma_full_context_window(c: ContextUsage)
    requires
        0 < window_size(c),
        100 * window_size(c) <= 0x20_0000_0000_0000,
        window_size(c) <= or_zero(c.input_tokens) + or_zero(c.cache_creation_input_tokens)
            + or_zero(c.cache_read_input_tokens),
    ensures
        context_cells(Some(c)) == seq![
            bar_cell("\x1b[38;5;13m\u{f49b}\x1b[0m"@, 5, 100, "\x1b[31m"@, None),
        ],
{
    lemma_context_percent_full(window_size(c), tokens_used(c));
    lemma_full_percent_cell("\x1b[38;5;13m\u{f49b}\x1b[0m"@);
}

/// A context window with no token in use, of any kind, shows an empty bar
/// and `0`, in gray.
pub proof fn lemma_empty_context_window(c: ContextUsage)
    requires
        or_zero(c.input_tokens) + or_zero(c.cache_creation_input_tokens) + or_zero(
            c.cache_read_input_tokens,
        ) == 0,
    ensures
        context_cells(Some(c)) == seq![
            bar_cell("\x1b[38;5;13m\u{f49b}\x1b[0m"@, 0, 0, "\x1b[90m"@, None),
        ],
{
    lemma_context_percent_empty("\x1b[38;5;13m\u{f49b}\x1b[0m"@, window_size(c));
}

/// The JSON pointer of `key` inside the `current_usage` object of the
/// session's `context_window`.
pub open spec fn current_usage_pointer(key: Seq<char>) -> Seq<char> {
    "/context_window/current_usage/"@ + key
}

/// The four numbers of the context window are read where the session writes
/// them: the window size in `context_window` itself, and each token count
/// inside `context_window.current_usage`, under the key named like the field.
pub proof fn lemma_context_read_from_current_usage(text: Seq<char>, r: SessionJson)
    requires
        reads_session(text, r),
        r.context is Some,
    ensures
        r.context.unwrap().context_window_size == json_count(
            text,
            "/context_window/"@ + "context_window_size"@,
        ),
        r.context.unwrap().input_tokens == json_count(
            text,
            current_usage_pointer("input_tokens"@),
        ),
        r.context.unwrap().cache_creation_input_tokens == json_count(
            text,
            current_usage_pointer("cache_creation_input_tokens"@),
        ),
        r.context.unwrap().cache_read_input_tokens == json_count(
            text,
            current_usage_pointer("cache_read_input_tokens"@),
        ),
{
    reveal_strlit("/context_window/");
    reveal_strlit("context_window_size");
    reveal_strlit("/context_window/context_window_size");
    reveal_strlit("/context_window/current_usage/");
    reveal_strlit("input_tokens");
    reveal_strlit("cache_creation_input_tokens");
    reveal_strlit("cache_read_input_tokens");
    reveal_strlit("/context_window/current_usage/input_tokens");
    reveal_strlit("/context_window/current_usage/cache_creation_input_tokens");
    reveal_strlit("/context_window/current_usage/cache_read_input_tokens");
    assert("/context_window/"@ + "context_window_size"@ =~= "/context_window/context_window_size"@);
    assert(current_usage_pointer("input_tokens"@)
        =~= "/context_window/current_usage/input_tokens"@);
    assert(current_usage_pointer("cache_creation_input_tokens"@)
        =~= "/context_window/current_usage/cache_creation_input_tokens"@);
    assert(current_usage_pointer("cache_read_input_tokens"@)
        =~= "/context_window/current_usage/cache_read_input_tokens"@);
}

/// The fields of the session are read at the places the session writes
/// them: the directory at `workspace.current_dir`, the model at
/// `model.display_name`, the output style at `output_style.name`, and the
/// changed lines inside the `cost` object.
pub proof fn lemma_session_fields_read(text: Seq<char>, r: SessionJson)
    requires
        reads_session(text, r),
    ensures
        opt_view(r.current_dir) == json_text(text, "/workspace/current_dir"@),
        opt_view(r.model) == json_text(text, "/model/display_name"@),
        opt_view(r.output_style) == json_text(text, "/output_style/name"@),
        r.has_cost == json_present(text, "/cost"@),
        r.total_lines_added == json_count(text, "/cost/total_lines_added"@),
        r.total_lines_removed == json_count(text, "/cost/total_lines_removed"@),
        r.context is Some <==> json_present(text, "/context_window"@),
{
}

/// Reads the session JSON that the status line gets on stdin. Text that is no
/// JSON reads as a document without any of the fields.
pub fn read_input(text: &str) -> (r: SessionJson)
    ensures
        reads_session(text@, r),
{
    let context = if read_json_present(text, "/context_window") {
        Some(
            ContextUsage {
                context_window_size: read_json_count(text, "/context_window/context_window_size"),
                input_tokens: read_json_count(text, "/context_window/current_usage/input_tokens"),
                cache_creation_input_tokens: read_json_count(
                    text,
                    "/context_window/current_usage/cache_creation_input_tokens",
                ),
                cache_read_input_tokens: read_json_count(
                    text,
                    "/context_window/current_usage/cache_read_input_tokens",
                ),
            },
        )
    } else {
        None
    };
    SessionJson {
        current_dir: read_json_text(text, "/workspace/current_dir"),
        model: read_json_text(text, "/model/display_name"),
        output_style: read_json_text(text, "/output_style/name"),
        has_cost: read_json_present(text, "/cost"),
        total_lines_added: read_json_count(text, "/cost/total_lines_added"),
        total_lines_removed: read_json_count(text, "/cost/total_lines_removed"),
        context,
    }
}

/// Joins the cells with `sep` between neighbours.
pub fn join_cells(cells: &Vec<String>, sep: &str) -> (r: String)
    ensures
        r@ == join_with(string_views(cells@), sep@),
{
    let ghost views = string_views(cells@);
    let mut r = String::new();
    if cells.len() == 0 {
        return r;
    }
    r.append(cells[0].as_str());
    let mut i: usize = 1;
    assert(views.subrange(0, 1) =~= seq![views[0]]);
    while i < cells.len()
        invariant
            1 <= i <= cells.len(),
            views == string_views(cells@),
            r@ == join_with(views.subrange(0, i as int), sep@),
        decreases cells.len() - i,
    {
        r.append(sep);
        r.append(cells[i].as_str());
        assert(views.subrange(0, i + 1).drop_last() =~= views.subrange(0, i as int));
        i = i + 1;
    }
    assert(views.subrange(0, cells.len() as int) =~= views);
    r
}

fn model_part_exec(input: &StatusInput) -> (r: String)
    ensures
        r@ == model_part(*input),
{
    let mut r = String::new();
    match &input.session.model {
        Some(m) => {
            r.append("\x1b[38;5;208m");
            r.append(m.as_str());
            match &input.session.output_style {
                Some(st) => {
                    r.append(" \x1b[90m(");
                    r.append(st.as_str());
                    r.append(")\x1b[0m");
                },
                None => {},
            }
        },
        None => {},
    }
    r
}

fn lines_part_exec(session: &SessionJson) -> (r: String)
    ensures
        r@ == lines_part(*session),
{
    let mut r = String::new();
    let added = match session.total_lines_added {
        Some(a) => a,
        None => 0,
    };
    let removed = match session.total_lines_removed {
        Some(x) => x,
        None => 0,
    };
    if session.has_cost && (added > 0 || removed > 0) {
        r.append("(\x1b[32m+");
        push_decimal(&mut r, added);
        r.append("\x1b[0m \x1b[31m-");
        push_decimal(&mut r, removed);
        r.append("\x1b[0m)");
    }
    r
}

fn extra_usage_part_exec(api: &Option<ApiStatus>) -> (r: Option<String>)
    ensures
        match r {
            Some(s) => extra_usage_part(*api) == Some(s@),
            None => extra_usage_part(*api) is None,
        },
{
    match api {
        Some(s) => match (s.extra_usage_enabled, s.extra_usage_used, s.extra_usage_monthly_limit) {
            (Some(true), Some(used), Some(limit)) => {
                let mut r = String::new();
                r.append(" \x1b[90m• \x1b[38;5;208m\u{f155}\u{f155}\x1b[0m ");
                r.append(usage_color_of(used, limit));
                r.append(format_credits_compact(used).as_str());
                r.append("\x1b[90m/");
                r.append(format_credits_compact(limit).as_str());
                r.append("\x1b[0m");
                Some(r)
            },
            _ => None,
        },
        None => None,
    }
}

fn cost_part_exec(input: &StatusInput) -> (r: String)
    ensures
        r@ == cost_part(*input),
{
    match extra_usage_part_exec(&input.api_status) {
        Some(e) => e,
        None => {
            let mut r = String::new();
            match &input.total_cost_text {
                Some(t) => {
                    if input.session.has_cost {
                        r.append(" \x1b[90m• \x1b[33m\u{f155}\x1b[0m ");
                        r.append(t.as_str());
                        r.append("\x1b[0m");
                    }
                },
                None => {},
            }
            r
        },
    }
}

fn savings_cells_exec(api: &Option<ApiStatus>) -> (r: Vec<String>)
    ensures
        string_views(r@) == savings_cells(*api),
{
    let mut r: Vec<String> = Vec::new();
    match api {
        Some(s) => {
            let combined = match s.combined_saved {
                Some(x) => x,
                None => 0,
            };
            let this_week = match s.this_week_saved {
                Some(x) => x,
                None => 0,
            };
            let last_week = match s.last_week_saved {
                Some(x) => x,
                None => 0,
            };
            let daily_avg = match s.burn_rate_daily {
                Some(x) => x,
                None => 0,
            };
            if combined > 0 || this_week > 0 || last_week > 0 || daily_avg > 0 {
                r.push(format_savings_cell("\x1b[38;5;10m\u{f0c7}\x1b[0m", combined));
                r.push(format_savings_cell("\x1b[90mwk\x1b[0m", this_week));
                if last_week > 0 {
                    r.push(format_savings_cell("\x1b[90mprev\x1b[0m", last_week));
                }
                r.push(format_savings_cell("\x1b[90md/avg\x1b[0m", daily_avg));
            }
        },
        None => {},
    }
    assert(string_views(r@) =~= savings_cells(*api));
    r
}

/// Renders the status line; a pure function of what was gathered.
pub fn render_statusline(input: &StatusInput) -> (r: String)
    requires
        input.session.context matches Some(c) ==> tokens_used(c) <= u64::MAX,
    ensures
        r@ == statusline_text(*input),
{
    let dir = match &input.session.current_dir {
        Some(d) => d,
        None => {
            return "\x1b[31m\u{f071} missing workspace.current_dir\x1b[0m".to_owned();
        },
    };
    let mut shortened = fish_shorten_path(dir.as_str(), input.home.as_str());
    shortened.append(" ");
    let display_dir = trim_end_exec(shortened.as_str());

    let model = model_part_exec(input);
    let cost = cost_part_exec(input);
    let mut model_str = String::new();
    if model.as_str().is_empty() {
        model_str.append(cost.as_str());
    } else {
        model_str.append(" \x1b[90m• \x1b[0m");
        model_str.append(model.as_str());
        model_str.append(cost.as_str());
    }

    let mut cells: Vec<String> = Vec::new();
    match &input.session.context {
        Some(c) => {
            let window = match c.context_window_size {
                Some(w) => w,
                None => 200000,
            };
            let it = match c.input_tokens {
                Some(x) => x,
                None => 0,
            };
            let cache_creation = match c.cache_creation_input_tokens {
                Some(x) => x,
                None => 0,
            };
            let cache_read = match c.cache_read_input_tokens {
                Some(x) => x,
                None => 0,
            };
            let used = it + cache_creation + cache_read;
            let pct = context_percent_exec(window, used);
            cells.push(format_percent_cell("\x1b[38;5;13m\u{f49b}\x1b[0m", pct, None));
        },
        None => {},
    }
    let ghost ctx = cells@;
    assert(string_views(ctx) =~= context_cells(input.session.context));
    let mut i: usize = 0;
    while i < input.rate_limit_cells.len()
        invariant
            i <= input.rate_limit_cells.len(),
            cells@ == ctx + input.rate_limit_cells@.subrange(0, i as int),
        decreases input.rate_limit_cells.len() - i,
    {
        cells.push(input.rate_limit_cells[i].clone());
        i = i + 1;
        assert(cells@ =~= ctx + input.rate_limit_cells@.subrange(0, i as int));
    }
    assert(cells@ =~= ctx + input.rate_limit_cells@);
    let savings = savings_cells_exec(&input.api_status);
    let mut j: usize = 0;
    while j < savings.len()
        invariant
            j <= savings.len(),
            cells@ == ctx + input.rate_limit_cells@ + savings@.subrange(0, j as int),
        decreases savings.len() - j,
    {
        cells.push(savings[j].clone());
        j = j + 1;
        assert(cells@ =~= ctx + input.rate_limit_cells@ + savings@.subrange(0, j as int));
    }
    assert(cells@ =~= ctx + input.rate_limit_cells@ + savings@);
    assert(string_views(cells@) =~= row_cells(*input));

    let mut second = String::new();
    if cells.len() > 0 {
        second.append("\n");
        second.append(join_cells(&cells, " \x1b[90m\u{2022}\x1b[0m ").as_str());
    }

    let mut r = String::new();
    r.append("\x1b[36m");
    r.append(display_dir.as_str());
    if !input.branch.as_str().is_empty() {
        r.append("\x1b[0m \x1b[38;5;12m\u{f02a2} \x1b[32m");
        r.append(input.branch.as_str());
        r.append(lines_part_exec(&input.session).as_str());
        r.append("\x1b[0m");
    } else {
        r.append("\x1b[0m");
    }
    r.append(model_str.as_str());
    r.append(second.as_str());
    r
}

} // verus!
