//! Text side of retrieval-augmented generation: documents, the tokenizer
//! and the ChatML (Hermes 2) prompt template.

use vstd::prelude::*;
use vstd::string::*;
use crate::k::K;

verus! {

/// A document of the database.
#[derive(Clone, Debug, PartialEq)]
pub struct Document {
    pub id: usize,
    pub content: String,
}

/// Documents and their vector representations, position by position.
pub struct DocumentDatabase {
    pub documents: Vec<Document>,
    pub vectors: Vec<K>,
}

/// What `str::to_lowercase` gives for a string: Unicode lowercase mapping,
/// which may change the number of characters.
pub uninterp spec fn spec_lowercase(s: Seq<char>) -> Seq<char>;

/// What `char::is_alphanumeric` says of a character: Unicode Alphabetic or
/// Numeric.
pub uninterp spec fn spec_is_alphanumeric(c: char) -> bool;

/// Lowercase a string with `str::to_lowercase`; the result is named by
/// `spec_lowercase` of the input, and nothing more is claimed.
#[verifier::external_body]
pub(crate) fn lowercase(s: &str) -> (r: String)
    ensures
        r@ == spec_lowercase(s@),
{
    s.to_lowercase()
}

/// `char::is_alphanumeric`; the answer is named by `spec_is_alphanumeric`
/// of the character, and nothing more is claimed.
#[verifier::external_body]
fn is_alnum(c: char) -> (r: bool)
    ensures
        r == spec_is_alphanumeric(c),
{
    c.is_alphanumeric()
}

/// `String::push`: the character is appended at the end.
#[verifier::external_body]
pub(crate) fn push_char(s: &mut String, c: char)
    ensures
        final(s)@ == old(s)@.push(c),
{
    s.push(c)
}

/// The maximal runs of alphanumeric characters of `s`, in order.
pub open spec fn words(s: Seq<char>) -> Seq<Seq<char>>
    decreases s.len(),
{
    if s.len() == 0 {
        Seq::empty()
    } else {
        let w = words(s.drop_last());
        let c = s.last();
        if !spec_is_alphanumeric(c) {
            w
        } else if s.len() >= 2 && spec_is_alphanumeric(s[s.len() - 2]) {
            w.update(w.len() - 1, w.last().push(c))
        } else {
            w.push(seq![c])
        }
    }
}

/// The models of a sequence of strings.
pub open spec fn strings_view(s: Seq<String>) -> Seq<Seq<char>> {
    s.map_values(|t: String| t@)
}

proof fn lemma_words_nonempty(s: Seq<char>)
    requires
        s.len() > 0,
        spec_is_alphanumeric(s.last()),
    ensures
        words(s).len() > 0,
    decreases s.len(),
{
    if s.len() >= 2 && spec_is_alphanumeric(s[s.len() - 2]) {
        lemma_words_nonempty(s.drop_last());
        assert(s.drop_last().last() == s[s.len() - 2]);
    }
}

/// Split already lowercased text into its maximal runs of alphanumeric
/// characters.
pub fn split_words(ls: &str) -> (r: Vec<String>)
    ensures
        strings_view(r@) == words(ls@),
{
    let ghost low = ls@;
    let len = ls.unicode_len();
    let mut tokens: Vec<String> = Vec::new();
    let mut cur = String::new();
    let mut in_word = false;
    let mut i: usize = 0;
    while i < len
        invariant
            i <= len,
            len == low.len(),
            low == ls@,
            in_word == (i > 0 && spec_is_alphanumeric(low[i - 1])),
            !in_word ==> strings_view(tokens@) == words(low.take(i as int)),
            in_word ==> strings_view(tokens@).push(cur@) == words(low.take(i as int)),
        decreases len - i,
    {
        let c = ls.get_char(i);
        let ghost t = low.take(i as int + 1);
        assert(t.drop_last() =~= low.take(i as int));
        assert(t.last() == c);
        if is_alnum(c) {
            if in_word {
                proof {
                    assert(t[t.len() - 2] == low[i - 1]);
                    lemma_words_nonempty(low.take(i as int));
                }
                let ghost old_cur = cur@;
                push_char(&mut cur, c);
                assert(strings_view(tokens@).push(cur@) =~= words(t));
            } else {
                cur = String::new();
                push_char(&mut cur, c);
                assert(cur@ =~= seq![c]);
                assert(strings_view(tokens@).push(cur@) =~= words(t));
            }
            in_word = true;
        } else {
            if in_word {
                let ghost before = strings_view(tokens@);
                let done = cur;
                cur = String::new();
                tokens.push(done);
                assert(strings_view(tokens@) =~= before.push(done@));
            }
            in_word = false;
        }
        i += 1;
    }
    if in_word {
        let ghost before = strings_view(tokens@);
        tokens.push(cur);
        assert(strings_view(tokens@) =~= before.push(cur@));
    }
    assert(low.take(len as int) =~= low);
    tokens
}

/// Clean and tokenize text: lowercase it, and split it into the maximal
/// runs of alphanumeric characters.
pub fn tokenize(text: &str) -> (r: Vec<String>)
    ensures
        strings_view(r@) == words(spec_lowercase(text@)),
{
    let lower = lowercase(text);
    split_words(lower.as_str())
}

/// The ChatML (Hermes 2) prompt for a system prompt, a retrieved context
/// and a question. The context section is left out when the context is
/// empty.
pub open spec fn hermes_prompt(system_prompt: Seq<char>, context: Seq<char>, query: Seq<char>) -> Seq<char> {
    "<|im_start|>system\n"@ + system_prompt + "<|im_end|>\n"@ + "<|im_start|>user\n"@ + (if context.len()
        > 0 {
        "Context:\n"@ + context + "\n\n"@
    } else {
        Seq::empty()
    }) + "Question: "@ + query + "<|im_end|>\n"@ + "<|im_start|>assistant\n"@
}

/// Format the retrieval prompt in the ChatML (Hermes 2) template.
pub fn format_hermes_prompt(system_prompt: &str, context: &str, query: &str) -> (r: String)
    ensures
        r@ == hermes_prompt(system_prompt@, context@, query@),
{
    let mut prompt = String::new();
    prompt.append("<|im_start|>system\n");
    prompt.append(system_prompt);
    prompt.append("<|im_end|>\n");
    prompt.append("<|im_start|>user\n");
    let ghost head = prompt@;
    if !context.is_empty() {
        prompt.append("Context:\n");
        prompt.append(context);
        prompt.append("\n\n");
        assert(prompt@ =~= head + ("Context:\n"@ + context@ + "\n\n"@));
    } else {
        assert(prompt@ =~= head + Seq::<char>::empty());
    }
    prompt.append("Question: ");
    prompt.append(query);
    prompt.append("<|im_end|>\n");
    prompt.append("<|im_start|>assistant\n");
    assert(prompt@ =~= hermes_prompt(system_prompt@, context@, query@));
    prompt
}

/// A nonempty context goes into the prompt whole: the prompt with context
/// is the prompt without context with the block `Context:\n`, the whole
/// context and a blank line inserted at one place; so it is longer by
/// exactly that block.
pub proof fn lemma_hermes_context_whole(system_prompt: Seq<char>, context: Seq<char>, query: Seq<char>)
    requires
        context.len() > 0,
    ensures
        hermes_prompt(system_prompt, context, query).len() == hermes_prompt(system_prompt, Seq::empty(), query).len()
            + ("Context:\n"@ + context + "\n\n"@).len(),
        exists|i: int|
            0 <= i <= hermes_prompt(system_prompt, Seq::empty(), query).len() && hermes_prompt(
                system_prompt,
                context,
                query,
            ) == #[trigger] hermes_prompt(system_prompt, Seq::empty(), query).take(i) + ("Context:\n"@ + context
                + "\n\n"@) + hermes_prompt(system_prompt, Seq::empty(), query).skip(i),
{
    let head = "<|im_start|>system\n"@ + system_prompt + "<|im_end|>\n"@ + "<|im_start|>user\n"@;
    let tail = "Question: "@ + query + "<|im_end|>\n"@ + "<|im_start|>assistant\n"@;
    let block = "Context:\n"@ + context + "\n\n"@;
    let e = hermes_prompt(system_prompt, Seq::empty(), query);
    let p = hermes_prompt(system_prompt, context, query);
    assert(e =~= head + tail);
    assert(p =~= head + block + tail);
    let i = head.len() as int;
    assert(e.take(i) =~= head);
    assert(e.skip(i) =~= tail);
    assert(p =~= e.take(i) + block + e.skip(i));
}

/// The context section of a prompt: one line `- <content>` per retrieved
/// document, in order, separated by newlines.
pub open spec fn context_of(contents: Seq<Seq<char>>) -> Seq<char>
    decreases contents.len(),
{
    if contents.len() == 0 {
        Seq::empty()
    } else if contents.len() == 1 {
        "- "@ + contents[0]
    } else {
        context_of(contents.drop_last()) + "\n"@ + "- "@ + contents.last()
    }
}

/// Build the context section from the contents of the retrieved
/// documents.
pub fn format_context(contents: &[String]) -> (r: String)
    ensures
        r@ == context_of(strings_view(contents@)),
{
    let ghost cv = strings_view(contents@);
    let mut out = String::new();
    let mut i: usize = 0;
    while i < contents.len()
        invariant
            i <= contents@.len(),
            cv == strings_view(contents@),
            out@ == context_of(cv.take(i as int)),
        decreases contents@.len() - i,
    {
        let ghost t = cv.take(i as int + 1);
        assert(t.drop_last() =~= cv.take(i as int));
        assert(t.last() == contents@[i as int]@);
        if i > 0 {
            out.append("\n");
        }
        out.append("- ");
        out.append(contents[i].as_str());
        proof {
            if i == 0 {
                assert(t.len() == 1);
                assert(t[0] == contents@[0]@);
                assert(cv.take(0).len() == 0);
            }
        }
        assert(out@ =~= context_of(t));
        i += 1;
    }
    assert(cv.take(contents@.len() as int) =~= cv);
    out
}

/// Every word is a nonempty run of alphanumeric characters.
pub proof fn lemma_words_are_alphanumeric(s: Seq<char>)
    ensures
        forall|k: int| 0 <= k < words(s).len() ==> (#[trigger] words(s)[k]).len() > 0,
        forall|k: int, j: int|
            0 <= k < words(s).len() && 0 <= j < words(s)[k].len() ==> spec_is_alphanumeric(
                #[trigger] words(s)[k][j],
            ),
    decreases s.len(),
{
    if s.len() > 0 {
        lemma_words_are_alphanumeric(s.drop_last());
        let w = words(s.drop_last());
        let c = s.last();
        if spec_is_alphanumeric(c) && s.len() >= 2 && spec_is_alphanumeric(s[s.len() - 2]) {
            lemma_words_nonempty(s.drop_last());
            assert(s.drop_last().last() == s[s.len() - 2]);
            let v = w.update(w.len() - 1, w.last().push(c));
            assert forall|k: int, j: int| 0 <= k < v.len() && 0 <= j < v[k].len() implies spec_is_alphanumeric(
                #[trigger] v[k][j],
            ) by {
                if k == w.len() - 1 && j == w.last().len() {
                } else {
                    assert(v[k][j] == w[k][j]);
                }
            }
        }
    }
}

/// A nonempty run of alphanumeric characters is one word.
pub proof fn lemma_words_of_run(s: Seq<char>)
    requires
        s.len() > 0,
        forall|i: int| 0 <= i < s.len() ==> spec_is_alphanumeric(#[trigger] s[i]),
    ensures
        words(s) == seq![s],
    decreases s.len(),
{
    if s.len() == 1 {
        assert(words(s.drop_last()) =~= Seq::<Seq<char>>::empty());
        assert(seq![s.last()] =~= s);
        assert(words(s) =~= seq![s]);
    } else {
        let t = s.drop_last();
        assert forall|i: int| 0 <= i < t.len() implies spec_is_alphanumeric(#[trigger] t[i]) by {
            assert(t[i] == s[i]);
        }
        lemma_words_of_run(t);
        assert(spec_is_alphanumeric(s[s.len() - 2]));
        assert(t.push(s.last()) =~= s);
        assert(words(s) =~= seq![s]);
    }
}

/// A character that is not alphanumeric separates words: the words of
/// `a`, the separator and `b` are the words of `a` followed by those of
/// `b`.
pub proof fn lemma_words_split(a: Seq<char>, c: char, b: Seq<char>)
    requires
        !spec_is_alphanumeric(c),
    ensures
        words(a + seq![c] + b) == words(a) + words(b),
    decreases b.len(),
{
    let ac = a + seq![c];
    if b.len() == 0 {
        assert(ac + b =~= ac);
        assert(ac.drop_last() =~= a);
        assert(words(a) + words(b) =~= words(a));
    } else {
        let bp = b.drop_last();
        let d = b.last();
        lemma_words_split(a, c, bp);
        let s = ac + b;
        assert(s.drop_last() =~= ac + bp);
        assert(s.last() == d);
        let wa = words(a);
        let wp = words(bp);
        assert(words(ac + bp) == wa + wp);
        if !spec_is_alphanumeric(d) {
        } else if b.len() >= 2 && spec_is_alphanumeric(b[b.len() - 2]) {
            assert(s[s.len() - 2] == b[b.len() - 2]);
            lemma_words_nonempty(bp);
            assert(bp.last() == b[b.len() - 2]);
            let w = wa + wp;
            assert(w.last() == wp.last());
            assert(w.update(w.len() - 1, w.last().push(d)) =~= wa + wp.update(wp.len() - 1, wp.last().push(d)));
        } else {
            if b.len() >= 2 {
                assert(s[s.len() - 2] == b[b.len() - 2]);
            } else {
                assert(s[s.len() - 2] == c);
            }
            assert((wa + wp).push(seq![d]) =~= wa + wp.push(seq![d]));
        }
    }
}

/// The context of several documents is the context of the first ones and
/// the context of the rest, joined by a newline; one document gives its
/// line `- <content>`.
pub proof fn lemma_context_concat(xs: Seq<Seq<char>>, ys: Seq<Seq<char>>)
    requires
        xs.len() > 0,
        ys.len() > 0,
    ensures
        context_of(xs + ys) == context_of(xs) + "\n"@ + context_of(ys),
        context_of(seq![ys[0]]) == "- "@ + ys[0],
    decreases ys.len(),
{
    let s = xs + ys;
    if ys.len() == 1 {
        assert(s.drop_last() =~= xs);
        assert(s.last() == ys[0]);
        assert(context_of(s) =~= context_of(xs) + "\n"@ + context_of(ys));
    } else {
        let yp = ys.drop_last();
        lemma_context_concat(xs, yp);
        assert(s.drop_last() =~= xs + yp);
        assert(s.last() == ys.last());
        assert(context_of(s) =~= context_of(xs) + "\n"@ + context_of(ys));
    }
}

} // verus!
