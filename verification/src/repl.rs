//! The commands of the interactive shell: a line is split into
//! whitespace-separated words, and its first word names the command.
use vstd::prelude::*;
use vstd::string::{StrSliceExecFns, StringExecFns};

verus! {

/// The state of an interactive session.
pub struct Context {}

/// A command read from one line.
#[derive(Debug)]
pub enum Command {
    /// A line with no word.
    Empty,
    /// `load <file>`: the second word of the line.
    Load(String),
    /// `write`.
    Write,
    /// Any other first word.
    Unknown,
}

/// Unicode's White_Space property, which `str::split_whitespace` splits on.
pub open spec fn is_whitespace(c: char) -> bool {
    let u = c as u32;
    ||| 0x09 <= u <= 0x0d
    ||| u == 0x20
    ||| u == 0x85
    ||| u == 0xa0
    ||| u == 0x1680
    ||| 0x2000 <= u <= 0x200a
    ||| u == 0x2028
    ||| u == 0x2029
    ||| u == 0x202f
    ||| u == 0x205f
    ||| u == 0x3000
}

/// The length of the run of non-whitespace characters that starts `s`.
pub open spec fn word_len(s: Seq<char>) -> nat
    decreases s.len(),
{
    if s.len() == 0 || is_whitespace(s[0]) {
        0
    } else {
        1 + word_len(s.drop_first())
    }
}

/// A leading word fits in its sequence.
pub proof fn lemma_word_len_bound(s: Seq<char>)
    ensures
        word_len(s) <= s.len(),
        s.len() > 0 && !is_whitespace(s[0]) ==> word_len(s) >= 1,
    decreases s.len(),
{
    if s.len() > 0 && !is_whitespace(s[0]) {
        lemma_word_len_bound(s.drop_first());
    }
}

/// The characters of a leading word hold no whitespace.
pub proof fn lemma_word_len_prefix(s: Seq<char>)
    ensures
        forall|j: int| 0 <= j < word_len(s) ==> !is_whitespace(#[trigger] s[j]),
    decreases s.len(),
{
    if s.len() > 0 && !is_whitespace(s[0]) {
        lemma_word_len_prefix(s.drop_first());
        lemma_word_len_bound(s.drop_first());
        assert forall|j: int| 0 <= j < word_len(s) implies !is_whitespace(#[trigger] s[j]) by {
            if j > 0 {
                assert(s[j] == s.drop_first()[j - 1]);
            }
        }
    }
}

/// The maximal runs of non-whitespace characters of `s`, in order.
pub open spec fn words(s: Seq<char>) -> Seq<Seq<char>>
    decreases s.len(),
{
    if s.len() == 0 {
        seq![]
    } else if is_whitespace(s[0]) {
        words(s.drop_first())
    } else {
        let k = word_len(s);
        proof {
            lemma_word_len_bound(s);
        }
        seq![s.take(k as int)] + words(s.skip(k as int))
    }
}

pub open spec fn load_word() -> Seq<char> {
    seq!['l', 'o', 'a', 'd']
}

pub open spec fn write_word() -> Seq<char> {
    seq!['w', 'r', 'i', 't', 'e']
}

/// The word length of a run that is known to end at `m`.
proof fn lemma_word_len_exact(t: Seq<char>, m: nat)
    requires
        m <= t.len(),
        forall|j: int| 0 <= j < m ==> !is_whitespace(#[trigger] t[j]),
        m == t.len() || is_whitespace(t[m as int]),
    ensures
        word_len(t) == m,
    decreases m,
{
    if m > 0 {
        assert forall|j: int| 0 <= j < m - 1 implies !is_whitespace(#[trigger] t.drop_first()[j]) by {
            assert(t.drop_first()[j] == t[j + 1]);
        }
        lemma_word_len_exact(t.drop_first(), (m - 1) as nat);
    }
}

/// A whitespace character before the words changes none of them.
proof fn lemma_words_skip_space(s: Seq<char>, i: int)
    requires
        0 <= i < s.len(),
        is_whitespace(s[i]),
    ensures
        words(s.skip(i)) == words(s.skip(i + 1)),
{
    assert(s.skip(i).drop_first() =~= s.skip(i + 1));
}

/// A word at `i` that ends at `k` is the first of the words from `i`.
proof fn lemma_words_at_word(s: Seq<char>, i: int, k: int)
    requires
        0 <= i < k <= s.len(),
        forall|j: int| i <= j < k ==> !is_whitespace(#[trigger] s[j]),
        k == s.len() || is_whitespace(s[k]),
    ensures
        words(s.skip(i)) == seq![s.subrange(i, k)] + words(s.skip(k)),
{
    let t = s.skip(i);
    assert forall|j: int| 0 <= j < k - i implies !is_whitespace(#[trigger] t[j]) by {
        assert(t[j] == s[i + j]);
    }
    lemma_word_len_exact(t, (k - i) as nat);
    assert(t.take(k - i) =~= s.subrange(i, k));
    assert(t.skip(k - i) =~= s.skip(k));
}

/// Unicode's White_Space property.
pub fn is_whitespace_char(c: char) -> (r: bool)
    ensures
        r == is_whitespace(c),
{
    let u = c as u32;
    (0x09 <= u && u <= 0x0d) || u == 0x20 || u == 0x85 || u == 0xa0 || u == 0x1680
        || (0x2000 <= u && u <= 0x200a) || u == 0x2028 || u == 0x2029 || u == 0x202f
        || u == 0x205f || u == 0x3000
}

/// The first index from `i` on that holds no whitespace (or the end).
fn skip_spaces(line: &str, n: usize, i: usize) -> (j: usize)
    requires
        n == line@.len(),
        i <= n,
    ensures
        i <= j <= n,
        j < n ==> !is_whitespace(line@[j as int]),
        words(line@.skip(i as int)) == words(line@.skip(j as int)),
{
    let mut j: usize = i;
    while j < n && is_whitespace_char(line.get_char(j))
        invariant
            n == line@.len(),
            i <= j <= n,
            words(line@.skip(i as int)) == words(line@.skip(j as int)),
        decreases n - j,
    {
        proof {
            lemma_words_skip_space(line@, j as int);
        }
        j = j + 1;
    }
    j
}

/// The end of the word that starts at `i`.
fn word_end(line: &str, n: usize, i: usize) -> (k: usize)
    requires
        n == line@.len(),
        i < n,
        !is_whitespace(line@[i as int]),
    ensures
        i < k <= n,
        words(line@.skip(i as int)) == seq![line@.subrange(i as int, k as int)] + words(line@.skip(k as int)),
{
    let mut k: usize = i + 1;
    while k < n && !is_whitespace_char(line.get_char(k))
        invariant
            n == line@.len(),
            i < k <= n,
            forall|j: int| i <= j < k ==> !is_whitespace(#[trigger] line@[j]),
        decreases n - k,
    {
        k = k + 1;
    }
    proof {
        lemma_words_at_word(line@, i as int, k as int);
    }
    k
}

/// Whether the characters `start..end` of `line` are `w`.
pub(crate) fn word_is(line: &str, start: usize, end: usize, w: &Vec<char>) -> (r: bool)
    requires
        start <= end <= line@.len(),
    ensures
        r == (line@.subrange(start as int, end as int) == w@),
{
    if end - start != w.len() {
        return false;
    }
    let mut i: usize = 0;
    while i < w.len()
        invariant
            start <= end <= line@.len(),
            end - start == w.len(),
            i <= w.len(),
            forall|j: int| 0 <= j < i ==> line@[start + j] == w@[j],
        decreases w.len() - i,
    {
        if line.get_char(start + i) != w[i] {
            assert(line@.subrange(start as int, end as int)[i as int] != w@[i as int]);
            return false;
        }
        i = i + 1;
    }
    assert(line@.subrange(start as int, end as int) =~= w@);
    true
}

/// Reads the command of one line of the shell: its first word names it;
/// `load` takes the second word as the file name.
pub fn parse_command(line: &str) -> (c: Command)
    requires
        !(words(line@).len() == 1 && words(line@)[0] == load_word()),
    ensures
        words(line@).len() == 0 ==> c is Empty,
        words(line@).len() > 0 && words(line@)[0] == load_word() ==> (c matches Command::Load(file)
            && file@ == words(line@)[1]),
        words(line@).len() > 0 && words(line@)[0] == write_word() ==> c is Write,
        words(line@).len() > 0 && words(line@)[0] != load_word() && words(line@)[0] != write_word()
            ==> c is Unknown,
{
    let n: usize = line.unicode_len();
    proof {
        assert(line@.skip(0) =~= line@);
    }
    let s0 = skip_spaces(line, n, 0);
    if s0 == n {
        proof {
            assert(line@.skip(n as int) =~= Seq::<char>::empty());
        }
        return Command::Empty;
    }
    let e0 = word_end(line, n, s0);
    let load: Vec<char> = vec!['l', 'o', 'a', 'd'];
    let write: Vec<char> = vec!['w', 'r', 'i', 't', 'e'];
    proof {
        assert(load@ =~= load_word());
        assert(write@ =~= write_word());
    }
    if word_is(line, s0, e0, &load) {
        let s1 = skip_spaces(line, n, e0);
        if s1 == n {
            proof {
                assert(line@.skip(n as int) =~= Seq::<char>::empty());
                assert(words(line@) =~= seq![line@.subrange(s0 as int, e0 as int)]);
                // `load` without a file name is excluded by the precondition
                assert(false);
            }
            return Command::Empty;
        }
        let e1 = word_end(line, n, s1);
        let file = String::from_str(line.substring_char(s1, e1));
        return Command::Load(file);
    }
    if word_is(line, s0, e0, &write) {
        proof {
            assert(load_word()[3] != write_word()[3]);
        }
        Command::Write
    } else {
        Command::Unknown
    }
}

/// Every word is a non-empty run of characters that are not whitespace; so
/// is, in particular, the file name that `load` takes.
pub proof fn lemma_words_are_nonempty_runs(s: Seq<char>)
    ensures
        forall|i: int|
            0 <= i < words(s).len() ==> (#[trigger] words(s)[i]).len() > 0 && forall|j: int|
                0 <= j < words(s)[i].len() ==> !is_whitespace(words(s)[i][j]),
    decreases s.len(),
{
    if s.len() > 0 {
        if is_whitespace(s[0]) {
            lemma_words_are_nonempty_runs(s.drop_first());
            assert(words(s) == words(s.drop_first()));
        } else {
            let k = word_len(s);
            lemma_word_len_bound(s);
            lemma_word_len_prefix(s);
            lemma_words_are_nonempty_runs(s.skip(k as int));
            let w = words(s);
            assert(w == seq![s.take(k as int)] + words(s.skip(k as int)));
            assert forall|i: int| 0 <= i < w.len() implies (#[trigger] w[i]).len() > 0 && forall|j: int|
                0 <= j < w[i].len() ==> !is_whitespace(w[i][j]) by {
                if i == 0 {
                    assert(w[0] == s.take(k as int));
                    assert forall|j: int| 0 <= j < w[0].len() implies !is_whitespace(w[0][j]) by {
                        assert(w[0][j] == s[j]);
                    }
                } else {
                    assert(w[i] == words(s.skip(k as int))[i - 1]);
                }
            }
        }
    }
}

/// The separators are exactly the characters of Unicode's White_Space
/// property: tab, line feed, line tabulation, form feed, carriage return,
/// space, next line, no-break space, Ogham space mark, the spaces from en
/// quad to hair space, line and paragraph separators, narrow no-break space,
/// medium mathematical space and ideographic space.
pub proof fn lemma_whitespace_characters(c: char)
    ensures
        is_whitespace(c) <==> (c == '\t' || c == '\n' || c == '\u{0B}' || c == '\u{0C}' || c == '\r'
            || c == ' ' || c == '\u{85}' || c == '\u{A0}' || c == '\u{1680}' || c == '\u{2000}'
            || c == '\u{2001}' || c == '\u{2002}' || c == '\u{2003}' || c == '\u{2004}'
            || c == '\u{2005}' || c == '\u{2006}' || c == '\u{2007}' || c == '\u{2008}'
            || c == '\u{2009}' || c == '\u{200A}' || c == '\u{2028}' || c == '\u{2029}'
            || c == '\u{202F}' || c == '\u{205F}' || c == '\u{3000}'),
{
}

/// A line made of `load`, one space and a word without whitespace (a path
/// with slashes, dots or dashes, say) has exactly those two words.
pub proof fn lemma_load_line(w: Seq<char>)
    requires
        w.len() > 0,
        forall|j: int| 0 <= j < w.len() ==> !is_whitespace(#[trigger] w[j]),
    ensures
        words(load_word() + seq![' '] + w) == seq![load_word(), w],
{
    let s = load_word() + seq![' '] + w;
    assert(s.len() == w.len() + 5);
    assert(s[0] == 'l' && s[1] == 'o' && s[2] == 'a' && s[3] == 'd' && s[4] == ' ');
    assert forall|j: int| 0 <= j < 4 implies !is_whitespace(#[trigger] s[j]) by {}
    assert forall|j: int| 5 <= j < s.len() implies !is_whitespace(#[trigger] s[j]) by {
        assert(s[j] == w[j - 5]);
    }
    lemma_words_at_word(s, 0, 4);
    lemma_words_skip_space(s, 4);
    lemma_words_at_word(s, 5, s.len() as int);
    assert(s.skip(0) =~= s);
    assert(s.subrange(0, 4) =~= load_word());
    assert(s.subrange(5, s.len() as int) =~= w);
    assert(s.skip(s.len() as int) =~= Seq::<char>::empty());
    assert(words(Seq::<char>::empty()) =~= Seq::<Seq<char>>::empty());
}

} // verus!
