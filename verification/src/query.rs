use vstd::prelude::*;

use vstd::utf8::{encode_scalar, encode_utf8};

use crate::errors::{NodeSpaceError, ProcessingError};
use crate::model::{decimal, push_decimal};
use crate::text::{chars_of, contains_seq, join, joined, push_char, push_str, spec_words, split_words, str_contains, string_of, views_of};

verus! {

/// Number of UTF-8 bytes of a text.
pub open spec fn utf8_len(s: Seq<char>) -> nat {
    encode_utf8(s).len()
}

/// The byte length of a text as `str::len` reports it.
pub open spec fn byte_len(s: Seq<char>) -> usize {
    encode_utf8(s).len() as usize
}

/// The encoding of a concatenation is the concatenation of the encodings.
pub proof fn lemma_encode_concat(a: Seq<char>, b: Seq<char>)
    ensures
        encode_utf8(a + b) == encode_utf8(a) + encode_utf8(b),
    decreases a.len(),
{
    if a.len() == 0 {
        assert(a + b =~= b);
        assert(encode_utf8(a) =~= Seq::<u8>::empty());
        assert(encode_utf8(a) + encode_utf8(b) =~= encode_utf8(b));
    } else {
        lemma_encode_concat(a.drop_first(), b);
        assert((a + b).drop_first() =~= a.drop_first() + b);
        assert((a + b)[0] == a[0]);
        assert(encode_utf8(a + b) =~= vstd::utf8::encode_scalar(a[0] as u32) + encode_utf8(a.drop_first() + b));
    }
}

/// Number of bytes of the UTF-8 encoding of one character.
pub fn char_width(c: char) -> (r: usize)
    ensures
        r == utf8_len(seq![c]),
        1 <= r <= 4,
{
    proof {
        assert(seq![c].drop_first() =~= Seq::<char>::empty());
        assert(encode_utf8(seq![c]) =~= vstd::utf8::encode_scalar(c as u32) + encode_utf8(Seq::<char>::empty()));
        vstd::utf8::char_is_scalar(c);
    }
    let v = c as u32;
    if v <= 0x7F {
        1
    } else if v <= 0x7FF {
        2
    } else if v <= 0xFFFF {
        3
    } else {
        4
    }
}

/// The number of leading characters of `s` whose encoding is exactly `n` bytes long,
/// if the byte position `n` falls between characters.
pub open spec fn cut_point(s: Seq<char>, n: nat) -> Option<int> {
    if exists|k: int| 0 <= k <= s.len() && utf8_len(s.take(k)) == n {
        Some(choose|k: int| 0 <= k <= s.len() && utf8_len(s.take(k)) == n)
    } else {
        None
    }
}

/// Byte lengths of prefixes grow strictly with the prefix.
proof fn lemma_prefix_len_strict(s: Seq<char>, j: int, k: int)
    requires
        0 <= j < k <= s.len(),
    ensures
        utf8_len(s.take(j)) < utf8_len(s.take(k)),
    decreases k - j,
{
    lemma_take_push_len(s, k - 1);
    if j < k - 1 {
        lemma_prefix_len_strict(s, j, k - 1);
    }
}

/// Adding one character to a prefix adds its width in bytes.
proof fn lemma_take_push_len(s: Seq<char>, k: int)
    requires
        0 <= k < s.len(),
    ensures
        utf8_len(s.take(k + 1)) == utf8_len(s.take(k)) + utf8_len(seq![s[k]]),
        utf8_len(seq![s[k]]) >= 1,
{
    assert(s.take(k + 1) =~= s.take(k) + seq![s[k]]);
    lemma_encode_concat(s.take(k), seq![s[k]]);
    assert(seq![s[k]].drop_first() =~= Seq::<char>::empty());
    assert(encode_utf8(seq![s[k]]) =~= vstd::utf8::encode_scalar(s[k] as u32) + encode_utf8(Seq::<char>::empty()));
}

/// Finds how many leading characters make up exactly `n` bytes.
pub fn find_cut(chars: &Vec<char>, n: usize) -> (r: Option<usize>)
    ensures
        match r {
            Some(k) => cut_point(chars@, n as nat) == Some(k as int) && k <= chars@.len(),
            None => cut_point(chars@, n as nat) is None,
        },
{
    let ghost s = chars@;
    let mut k: usize = 0;
    let mut acc: usize = 0;
    proof {
        assert(s.take(0) =~= Seq::<char>::empty());
        assert(encode_utf8(Seq::<char>::empty()) =~= Seq::<u8>::empty());
    }
    while k < chars.len() && acc < n
        invariant
            s == chars@,
            k <= s.len(),
            acc == utf8_len(s.take(k as int)),
            acc <= n,
            forall|j: int| 0 <= j < k ==> #[trigger] utf8_len(s.take(j)) < n,
        decreases s.len() - k,
    {
        let w = char_width(chars[k]);
        proof {
            lemma_take_push_len(s, k as int);
        }
        if w > n - acc {
            proof {
                assert forall|j: int| 0 <= j <= s.len() implies #[trigger] utf8_len(s.take(j)) != n by {
                    if j <= k {
                        if j < k {
                            lemma_prefix_len_strict(s, j, k as int);
                        }
                    } else {
                        if j > k + 1 {
                            lemma_prefix_len_strict(s, k + 1, j);
                        }
                    }
                }
            }
            return None;
        }
        acc = acc + w;
        k = k + 1;
    }
    if acc == n {
        proof {
            let c = choose|j: int| 0 <= j <= s.len() && utf8_len(s.take(j)) == n;
            if c < k {
                lemma_prefix_len_strict(s, c, k as int);
            }
            if c > k {
                lemma_prefix_len_strict(s, k as int, c);
            }
        }
        Some(k)
    } else {
        proof {
            assert(k == s.len());
            assert forall|j: int| 0 <= j <= s.len() implies #[trigger] utf8_len(s.take(j)) != n by {
                if j < k {
                    lemma_prefix_len_strict(s, j, k as int);
                }
            }
        }
        None
    }
}

/// Bytes reserved for the fixed parts of a prompt.
pub const PROMPT_STRUCTURE_RESERVE: usize = 200;

/// Default context window, in bytes.
pub const DEFAULT_CONTEXT_WINDOW: usize = 4096;

/// `a - b`, or zero.
pub open spec fn sat_sub(a: int, b: int) -> nat {
    if a >= b {
        (a - b) as nat
    } else {
        0
    }
}

/// `a + b`, or the largest `usize`.
pub open spec fn sat_add_usize(a: usize, b: usize) -> usize {
    if a + b <= usize::MAX {
        (a + b) as usize
    } else {
        usize::MAX
    }
}

/// The largest context, in bytes, that a prompt for `query` may carry.
pub open spec fn max_context_bytes(query: Seq<char>, context_window: usize) -> nat {
    sat_sub(context_window as int, sat_add_usize(byte_len(query), PROMPT_STRUCTURE_RESERVE) as int)
}

/// The context pieces joined by blank lines.
pub open spec fn context_text(context: Seq<String>) -> Seq<char> {
    joined(views_of(context), "\n\n"@)
}

/// Whether the context of a prompt can be cut to its byte budget between characters.
pub open spec fn prompt_cut_ok(query: Seq<char>, context: Seq<String>, context_window: usize) -> bool {
    let t = context_text(context);
    byte_len(t) > max_context_bytes(query, context_window) ==> cut_point(
        t,
        max_context_bytes(query, context_window),
    ) is Some
}

/// The context as the prompt carries it: the whole text when it fits, otherwise its
/// first `max` bytes followed by an ellipsis.
pub open spec fn fitted_context(query: Seq<char>, context: Seq<String>, context_window: usize) -> Seq<char> {
    let t = context_text(context);
    let max = max_context_bytes(query, context_window);
    if byte_len(t) > max {
        t.take(cut_point(t, max)->0) + "..."@
    } else {
        t
    }
}

/// The ellipsis takes three bytes.
proof fn lemma_ellipsis_len()
    ensures
        utf8_len("..."@) == 3,
{
    reveal_strlit("...");
    let d = seq!['.'];
    assert("..."@ =~= d + d + d);
    lemma_encode_concat(d + d, d);
    lemma_encode_concat(d, d);
    assert(d.drop_first() =~= Seq::<char>::empty());
    assert(encode_utf8(d) =~= encode_scalar('.' as u32) + encode_utf8(Seq::<char>::empty()));
    assert(('.' as u32) == 46);
    assert(encode_scalar('.' as u32).len() == 1);
}

/// The context a prompt carries stays within its byte budget: a context that fits is
/// carried whole; a longer one is cut to exactly the budget, between characters, and
/// followed by the three-byte ellipsis.
pub proof fn law_prompt_context_within_budget(query: Seq<char>, context: Seq<String>, context_window: usize)
    requires
        prompt_cut_ok(query, context, context_window),
        utf8_len(context_text(context)) <= usize::MAX,
    ensures
        utf8_len(context_text(context)) <= max_context_bytes(query, context_window) ==> fitted_context(
            query,
            context,
            context_window,
        ) == context_text(context),
        utf8_len(context_text(context)) > max_context_bytes(query, context_window) ==> exists|k: int|
            0 <= k <= context_text(context).len() && fitted_context(query, context, context_window)
                == #[trigger] context_text(context).take(k) + "..."@ && utf8_len(context_text(context).take(k))
                == max_context_bytes(query, context_window),
        utf8_len(fitted_context(query, context, context_window)) <= max_context_bytes(query, context_window) + 3,
{
    let t = context_text(context);
    let max = max_context_bytes(query, context_window);
    if byte_len(t) > max {
        let k = cut_point(t, max)->0;
        lemma_encode_concat(t.take(k), "..."@);
        lemma_ellipsis_len();
        assert(fitted_context(query, context, context_window) == t.take(k) + "..."@);
    }
}

/// The prompt for `query` given the fitted context `c`.
pub open spec fn prompt_text(query: Seq<char>, c: Seq<char>) -> Seq<char> {
    if c.len() == 0 {
        "Please provide a detailed and helpful answer to this question: "@ + query
            + "\n\nProvide a comprehensive response with explanations and context where appropriate."@
    } else {
        "Using the context below, provide a helpful answer that's both informative and conversational:\n\nContext:\n"@
            + c + "\n\nQuestion: "@ + query
            + "\n\nAnswer directly but include relevant context that helps explain the 'why' behind the information. Keep it engaging and professional.\n\nAnswer:"@
    }
}

/// The byte budget for the context of a prompt for `query`.
fn context_budget(query: &str, context_window: usize) -> (r: usize)
    ensures
        r == max_context_bytes(query@, context_window),
{
    let q = query.len();
    let used = q.saturating_add(PROMPT_STRUCTURE_RESERVE);
    if context_window >= used {
        context_window - used
    } else {
        0
    }
}

/// Whether the context of a prompt for `query` can be cut to its budget between
/// characters (the cut inside a character is where slicing the text would fail).
pub fn prompt_fits_boundary(query: &str, context: &Vec<String>, context_window: usize) -> (r: bool)
    ensures
        r == prompt_cut_ok(query@, context@, context_window),
{
    let t = join(context, "\n\n");
    let max = context_budget(query, context_window);
    proof {
        assert(t@ == context_text(context@));
    }
    if t.as_str().len() > max {
        let cs = chars_of(t.as_str());
        find_cut(&cs, max).is_some()
    } else {
        true
    }
}

/// Builds the question-answering prompt: the context pieces joined by blank lines, cut
/// to the byte budget left by the query (ellipsis appended when cut), wrapped in the
/// contextual template, or the general-knowledge template when there is no context.
pub fn build_contextual_prompt(query: &str, context: &Vec<String>, context_window: usize) -> (r: String)
    requires
        prompt_cut_ok(query@, context@, context_window),
    ensures
        r@ == prompt_text(query@, fitted_context(query@, context@, context_window)),
{
    let t = join(context, "\n\n");
    let max = context_budget(query, context_window);
    proof {
        assert(t@ == context_text(context@));
    }
    let fitted: String = if t.as_str().len() > max {
        let cs = chars_of(t.as_str());
        let k = find_cut(&cs, max).unwrap();
        let mut f = String::new();
        let mut i: usize = 0;
        while i < k
            invariant
                i <= k,
                k <= cs@.len(),
                f@ == cs@.take(i as int),
            decreases k - i,
        {
            push_char(&mut f, cs[i]);
            proof {
                assert(cs@.take(i + 1) =~= cs@.take(i as int).push(cs@[i as int]));
            }
            i = i + 1;
        }
        push_str(&mut f, "...");
        f
    } else {
        t
    };
    let mut p = String::new();
    if fitted.as_str().is_empty() {
        push_str(&mut p, "Please provide a detailed and helpful answer to this question: ");
        push_str(&mut p, query);
        push_str(&mut p, "\n\nProvide a comprehensive response with explanations and context where appropriate.");
    } else {
        push_str(&mut p, "Using the context below, provide a helpful answer that's both informative and conversational:\n\nContext:\n");
        push_str(&mut p, fitted.as_str());
        push_str(&mut p, "\n\nQuestion: ");
        push_str(&mut p, query);
        push_str(&mut p, "\n\nAnswer directly but include relevant context that helps explain the 'why' behind the information. Keep it engaging and professional.\n\nAnswer:");
    }
    proof {
        lemma_str_len_zero(fitted@);
    }
    p
}

/// A text has no bytes exactly when it has no characters.
proof fn lemma_str_len_zero(s: Seq<char>)
    ensures
        (utf8_len(s) == 0) == (s.len() == 0),
{
    if s.len() > 0 {
        lemma_take_push_len(s, 0);
        assert(s.take(1) + s.subrange(1, s.len() as int) =~= s);
        lemma_encode_concat(s.take(1), s.subrange(1, s.len() as int));
    } else {
        assert(encode_utf8(s) =~= Seq::<u8>::empty());
    }
}

} // verus!

verus! {

/// How confident an answer is: whether the question came with context, and whether the
/// answer admits that no real answer could be generated. Base confidence is 0.8 with
/// context and 0.3 without; an admitting answer halves it.
#[derive(Debug, Clone, Copy, PartialEq, Eq, Structural)]
pub struct ResponseConfidence {
    pub has_context: bool,
    pub fallback: bool,
}

/// Rates an answer (see `ResponseConfidence`).
pub fn calculate_response_confidence(context: &Vec<String>, answer: &str) -> (r: ResponseConfidence)
    ensures
        r.has_context == (context@.len() > 0),
        r.fallback == (contains_seq(answer@, "currently unable"@) || contains_seq(
            answer@,
            "cannot generate"@,
        )),
{
    let fallback = str_contains(answer, "currently unable") || str_contains(answer, "cannot generate");
    ResponseConfidence { has_context: context.len() > 0, fallback }
}

/// The last word of a query, or "this topic" when it has none.
pub open spec fn last_word_or_topic(words: Seq<Seq<char>>) -> Seq<char> {
    if words.len() > 0 {
        words.last()
    } else {
        "this topic"@
    }
}

/// At most the first three words of a query.
pub open spec fn first_words(words: Seq<Seq<char>>) -> Seq<Seq<char>> {
    if words.len() > 3 {
        words.take(3)
    } else {
        words
    }
}

/// Two follow-up questions: about the query's last word, and about how its first three
/// words work.
pub fn generate_related_queries(query: &str) -> (r: Vec<String>)
    ensures
        r@.len() == 2,
        r@[0]@ == "What else about "@ + last_word_or_topic(spec_words(query@)) + "?"@,
        r@[1]@ == "How does "@ + joined(first_words(spec_words(query@)), " "@) + " work?"@,
{
    let words = split_words(query);
    let ghost wv = views_of(words@);
    let mut first = String::new();
    push_str(&mut first, "What else about ");
    if words.len() > 0 {
        push_str(&mut first, words[words.len() - 1].as_str());
        proof {
            assert(wv.last() == words@[words@.len() - 1]@);
        }
    } else {
        push_str(&mut first, "this topic");
    }
    push_str(&mut first, "?");
    let mut lead: Vec<String> = Vec::new();
    let mut i: usize = 0;
    while i < words.len() && i < 3
        invariant
            i <= words@.len(),
            i <= 3,
            wv == views_of(words@),
            views_of(lead@) == wv.take(i as int),
        decreases words@.len() - i,
    {
        let ghost before = lead@;
        lead.push(words[i].clone());
        proof {
            assert(lead@ == before.push(words@[i as int]));
            assert(views_of(lead@) =~= views_of(before).push(wv[i as int]));
            assert(wv.take(i + 1) =~= wv.take(i as int).push(wv[i as int]));
            assert(views_of(lead@) =~= wv.take(i + 1));
        }
        i = i + 1;
    }
    proof {
        if words@.len() <= 3 {
            assert(wv.take(i as int) =~= wv);
        }
    }
    let mut second = String::new();
    push_str(&mut second, "How does ");
    let j = join(&lead, " ");
    push_str(&mut second, j.as_str());
    push_str(&mut second, " work?");
    let mut r: Vec<String> = Vec::new();
    r.push(first);
    r.push(second);
    r
}

/// What the service does when text generation fails.
#[derive(Debug, Clone, Copy, PartialEq, Eq, Structural)]
pub enum OfflineFallback {
    /// Report the failure.
    Error,
    /// Answer with a fixed apology.
    Stub,
    /// Point to the sources that were found.
    Cache,
}

/// The apology given in place of a generated answer.
pub open spec fn stub_answer() -> Seq<char> {
    "I apologize, but I'm currently unable to generate a response due to AI system limitations. Please try again later."@
}

/// The answer given in place of a generated answer when sources were found.
pub open spec fn cached_answer(n: nat) -> Seq<char> {
    if n == 0 {
        "I found no relevant information to answer your question."@
    } else {
        "I found "@ + decimal(n)
            + " related documents but cannot generate a detailed response at this time. Please review the source materials directly."@
    }
}

/// Whether `r` is the outcome of a question whose text generation failed with the
/// error text `error`: an error, the apology, or a pointer to the `source_count`
/// sources, as `mode` says.
pub open spec fn is_fallback(r: Result<String, NodeSpaceError>, mode: OfflineFallback, source_count: nat, error: Seq<char>) -> bool {
    match mode {
        OfflineFallback::Error => r matches Err(NodeSpaceError::Processing(
            ProcessingError::ModelError { service, model_name, reason, .. },
        )) && service@ == "core-logic"@ && model_name@ == "text-generation"@ && reason@
            == "Text generation failed: "@ + error,
        OfflineFallback::Stub => r matches Ok(s) && s@ == stub_answer(),
        OfflineFallback::Cache => r matches Ok(s) && s@ == cached_answer(source_count),
    }
}

/// The outcome of a question when text generation failed with `error`: an error, the
/// apology, or a pointer to the `source_count` sources, as `mode` says.
pub fn fallback_answer(mode: OfflineFallback, source_count: usize, error: &str) -> (r: Result<String, NodeSpaceError>)
    ensures
        is_fallback(r, mode, source_count as nat, error@),
{
    match mode {
        OfflineFallback::Error => {
            let mut reason = String::new();
            push_str(&mut reason, "Text generation failed: ");
            push_str(&mut reason, error);
            Err(NodeSpaceError::Processing(ProcessingError::model_error("core-logic", "text-generation", reason)))
        },
        OfflineFallback::Stub => Ok(string_of(
            "I apologize, but I'm currently unable to generate a response due to AI system limitations. Please try again later.",
        )),
        OfflineFallback::Cache => {
            if source_count == 0 {
                Ok(string_of("I found no relevant information to answer your question."))
            } else {
                let mut s = String::new();
                push_str(&mut s, "I found ");
                push_decimal(&mut s, source_count as u64);
                push_str(&mut s, " related documents but cannot generate a detailed response at this time. Please review the source materials directly.");
                Ok(s)
            }
        },
    }
}

/// The answer to an insight request without nodes.
pub open spec fn no_nodes_insight() -> Seq<char> {
    "No nodes provided for insight generation."@
}

/// The prompt asking for insights on the given contents.
pub open spec fn insight_prompt_text(contents: Seq<String>) -> Seq<char> {
    "Analyze the following content and provide key insights, patterns, and connections:\n\n"@
        + joined(views_of(contents), "\n\n---\n\n"@)
        + "\n\nProvide a concise summary with 3-5 key insights:"@
}

/// Builds the prompt asking for insights on the given contents.
pub fn insight_prompt(contents: &Vec<String>) -> (r: String)
    ensures
        r@ == insight_prompt_text(contents@),
{
    let mut p = String::new();
    push_str(&mut p, "Analyze the following content and provide key insights, patterns, and connections:\n\n");
    let body = join(contents, "\n\n---\n\n");
    push_str(&mut p, body.as_str());
    push_str(&mut p, "\n\nProvide a concise summary with 3-5 key insights:");
    p
}

} // verus!

verus! {

/// The patterns of `patterns` that occur in `text`, in order.
pub open spec fn matched(text: Seq<char>, patterns: Seq<Seq<char>>) -> Seq<Seq<char>> {
    crate::lru::kept(patterns, |p: Seq<char>| contains_seq(text, p))
}

/// Copies of the patterns that occur in `text`, in order.
pub fn match_patterns(text: &str, patterns: &Vec<&str>) -> (r: Vec<String>)
    ensures
        views_of(r@) == matched(text@, patterns@.map_values(|p: &str| p@)),
{
    let ghost pv = patterns@.map_values(|p: &str| p@);
    let mut r: Vec<String> = Vec::new();
    let mut i: usize = 0;
    while i < patterns.len()
        invariant
            i <= patterns@.len(),
            pv == patterns@.map_values(|p: &str| p@),
            views_of(r@) == matched(text@, pv.take(i as int)),
        decreases patterns@.len() - i,
    {
        let ghost before = r@;
        proof {
            assert(pv.take(i + 1).drop_last() =~= pv.take(i as int));
            assert(pv.take(i + 1).last() == patterns@[i as int]@);
        }
        if str_contains(text, patterns[i]) {
            r.push(string_of(patterns[i]));
            proof {
                assert(views_of(r@) =~= views_of(before).push(patterns@[i as int]@));
            }
        }
        i = i + 1;
    }
    proof {
        assert(pv.take(patterns@.len() as int) =~= pv);
    }
    r
}

/// Entities mentioned in a query.
#[derive(Debug)]
pub struct ExtractedEntities {
    pub people: Vec<String>,
    pub events: Vec<String>,
    pub objects: Vec<String>,
    pub locations: Vec<String>,
}

/// Names recognised by the pattern fallback.
pub open spec fn name_patterns() -> Seq<Seq<char>> {
    seq!["claire"@, "john"@, "mary"@, "david"@, "sarah"@, "mike"@, "anna"@]
}

/// Events recognised by the pattern fallback.
pub open spec fn event_patterns() -> Seq<Seq<char>> {
    seq!["birthday"@, "meeting"@, "party"@, "conference"@, "dinner"@, "lunch"@]
}

/// Objects recognised by the pattern fallback.
pub open spec fn object_patterns() -> Seq<Seq<char>> {
    seq!["shirt"@, "document"@, "photo"@, "screenshot"@, "diagram"@, "chart"@]
}

/// Entity extraction by fixed patterns on the lower-cased query: the known names,
/// events and objects that occur in it, in pattern order; no locations.
pub fn extract_entities_fallback(query: &str) -> (r: ExtractedEntities)
    ensures
        views_of(r.people@) == matched(crate::text::spec_lowercase(query@), name_patterns()),
        views_of(r.events@) == matched(crate::text::spec_lowercase(query@), event_patterns()),
        views_of(r.objects@) == matched(crate::text::spec_lowercase(query@), object_patterns()),
        r.locations@.len() == 0,
{
    let lower = crate::text::to_lowercase(query);
    let names: Vec<&str> = vec!["claire", "john", "mary", "david", "sarah", "mike", "anna"];
    let events: Vec<&str> = vec!["birthday", "meeting", "party", "conference", "dinner", "lunch"];
    let objects: Vec<&str> = vec!["shirt", "document", "photo", "screenshot", "diagram", "chart"];
    proof {
        assert(names@.map_values(|p: &str| p@) =~= name_patterns());
        assert(events@.map_values(|p: &str| p@) =~= event_patterns());
        assert(objects@.map_values(|p: &str| p@) =~= object_patterns());
    }
    ExtractedEntities {
        people: match_patterns(lower.as_str(), &names),
        events: match_patterns(lower.as_str(), &events),
        objects: match_patterns(lower.as_str(), &objects),
        locations: Vec::new(),
    }
}

/// Visual attributes mentioned in a query.
#[derive(Debug)]
pub struct VisualAttributes {
    pub colors: Vec<String>,
    pub objects: Vec<String>,
    pub scene_types: Vec<String>,
    pub people_descriptions: Vec<String>,
}

/// Colours recognised in queries.
pub open spec fn color_patterns() -> Seq<Seq<char>> {
    seq!["red"@, "blue"@, "green"@, "yellow"@, "black"@, "white"@, "purple"@, "orange"@, "pink"@, "brown"@]
}

/// Visual objects recognised in queries.
pub open spec fn visual_object_patterns() -> Seq<Seq<char>> {
    seq!["shirt"@, "dress"@, "hat"@, "car"@, "building"@, "tree"@, "person"@, "face"@]
}

/// Scene types recognised in queries.
pub open spec fn scene_patterns() -> Seq<Seq<char>> {
    seq!["indoor"@, "outdoor"@, "office"@, "restaurant"@, "home"@, "park"@, "street"@]
}

/// The colours named in a query (lower-cased), in pattern order.
pub fn extract_colors(query: &str) -> (r: Vec<String>)
    ensures
        views_of(r@) == matched(crate::text::spec_lowercase(query@), color_patterns()),
{
    let lower = crate::text::to_lowercase(query);
    let colors: Vec<&str> = vec!["red", "blue", "green", "yellow", "black", "white", "purple", "orange", "pink", "brown"];
    proof {
        assert(colors@.map_values(|p: &str| p@) =~= color_patterns());
    }
    match_patterns(lower.as_str(), &colors)
}

/// The visual objects named in a query (lower-cased), in pattern order.
pub fn extract_visual_objects(query: &str) -> (r: Vec<String>)
    ensures
        views_of(r@) == matched(crate::text::spec_lowercase(query@), visual_object_patterns()),
{
    let lower = crate::text::to_lowercase(query);
    let objects: Vec<&str> = vec!["shirt", "dress", "hat", "car", "building", "tree", "person", "face"];
    proof {
        assert(objects@.map_values(|p: &str| p@) =~= visual_object_patterns());
    }
    match_patterns(lower.as_str(), &objects)
}

/// The scene types named in a query (lower-cased), in pattern order.
pub fn extract_scene_types(query: &str) -> (r: Vec<String>)
    ensures
        views_of(r@) == matched(crate::text::spec_lowercase(query@), scene_patterns()),
{
    let lower = crate::text::to_lowercase(query);
    let scenes: Vec<&str> = vec!["indoor", "outdoor", "office", "restaurant", "home", "park", "street"];
    proof {
        assert(scenes@.map_values(|p: &str| p@) =~= scene_patterns());
    }
    match_patterns(lower.as_str(), &scenes)
}

/// "wearing clothing" when the text mentions wearing, then "smiling" when it mentions
/// smiling.
pub open spec fn people_descriptions(text: Seq<char>) -> Seq<Seq<char>> {
    (if contains_seq(text, "wearing"@) {
        seq!["wearing clothing"@]
    } else {
        Seq::empty()
    }) + (if contains_seq(text, "smiling"@) {
        seq!["smiling"@]
    } else {
        Seq::empty()
    })
}

/// Descriptions of people implied by a query (lower-cased, see `people_descriptions`).
pub fn extract_people_descriptions(query: &str) -> (r: Vec<String>)
    ensures
        views_of(r@) == people_descriptions(crate::text::spec_lowercase(query@)),
{
    let lower = crate::text::to_lowercase(query);
    let mut r: Vec<String> = Vec::new();
    let wearing = str_contains(lower.as_str(), "wearing");
    let smiling = str_contains(lower.as_str(), "smiling");
    if wearing {
        r.push(string_of("wearing clothing"));
    }
    if smiling {
        r.push(string_of("smiling"));
    }
    proof {
        assert(views_of(r@) =~= people_descriptions(lower@));
    }
    r
}

/// Visual attributes by fixed patterns on the lower-cased query.
pub fn extract_visual_refs(query: &str) -> (r: VisualAttributes)
    ensures
        views_of(r.colors@) == matched(crate::text::spec_lowercase(query@), color_patterns()),
        views_of(r.objects@) == matched(crate::text::spec_lowercase(query@), visual_object_patterns()),
        views_of(r.scene_types@) == matched(crate::text::spec_lowercase(query@), scene_patterns()),
        views_of(r.people_descriptions@) == people_descriptions(crate::text::spec_lowercase(query@)),
{
    VisualAttributes {
        colors: extract_colors(query),
        objects: extract_visual_objects(query),
        scene_types: extract_scene_types(query),
        people_descriptions: extract_people_descriptions(query),
    }
}


/// The prompt asking the model for the entities of a query as JSON.
pub open spec fn entity_prompt_text(query: Seq<char>) -> Seq<char> {
    "Extract entities from this query and respond in JSON format:\nQuery: '"@ + query + "'\n\nExtract:\n- people: names of people mentioned\n- events: events or occasions mentioned  \n- objects: physical objects or items mentioned\n- locations: places or locations mentioned\n\nRespond with JSON: {\"people\": [...], \"events\": [...], \"objects\": [...], \"locations\": [...]}"@
}

/// Builds the prompt asking the model for the entities of a query as JSON.
pub fn entity_extraction_prompt(query: &str) -> (r: String)
    ensures
        r@ == entity_prompt_text(query@),
{
    let mut p = string_of("Extract entities from this query and respond in JSON format:\nQuery: '");
    push_str(&mut p, query);
    push_str(&mut p, "'\n\nExtract:\n- people: names of people mentioned\n- events: events or occasions mentioned  \n- objects: physical objects or items mentioned\n- locations: places or locations mentioned\n\nRespond with JSON: {\"people\": [...], \"events\": [...], \"objects\": [...], \"locations\": [...]}");
    p
}

/// The prompt asking the model for the temporal references of a query.
pub open spec fn temporal_prompt_text(query: Seq<char>) -> Seq<char> {
    "Extract temporal references from this query. Look for dates, times, or event-based temporal references:\nQuery: '"@ + query + "'\n\nFind references like:\n- Specific dates (June 15, 2023-06-15)\n- Relative times (yesterday, last week)  \n- Event-based times (during birthday, at the meeting)\n- Fuzzy times (around that time, recently)\n\nFor each reference, determine if it's exact, relative, event-based, or fuzzy."@
}

/// Builds the prompt asking the model for the temporal references of a query.
pub fn temporal_extraction_prompt(query: &str) -> (r: String)
    ensures
        r@ == temporal_prompt_text(query@),
{
    let mut p = string_of("Extract temporal references from this query. Look for dates, times, or event-based temporal references:\nQuery: '");
    push_str(&mut p, query);
    push_str(&mut p, "'\n\nFind references like:\n- Specific dates (June 15, 2023-06-15)\n- Relative times (yesterday, last week)  \n- Event-based times (during birthday, at the meeting)\n- Fuzzy times (around that time, recently)\n\nFor each reference, determine if it's exact, relative, event-based, or fuzzy.");
    p
}

} // verus!
