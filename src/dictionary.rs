//! The set of words that the tray accepts.
use vstd::prelude::*;

verus! {

/// A lower-case ASCII letter.
pub open spec fn is_lower_letter(c: char) -> bool {
    'a' <= c && c <= 'z'
}

/// A dictionary word: at least one character, every one a lower-case letter.
pub open spec fn is_plain_word(w: Seq<char>) -> bool {
    w.len() >= 1 && forall|i: int| 0 <= i < w.len() ==> is_lower_letter(#[trigger] w[i])
}

/// What `to_ascii_lowercase` does to one character.
pub open spec fn lower_char(c: char) -> char {
    if 'A' <= c && c <= 'Z' {
        ((c as u32) + 32) as char
    } else {
        c
    }
}

/// A line of a word list as the dictionary reads it: a trailing carriage
/// return is dropped and capitals become lower case.
pub open spec fn normalize_line(line: Seq<char>) -> Seq<char> {
    let body = if line.len() > 0 && line.last() == '\r' {
        line.drop_last()
    } else {
        line
    };
    body.map_values(|c: char| lower_char(c))
}

/// `text[a..b]` is a whole line of `text`: it begins at the start of the text
/// or after a line feed, ends at the end of the text or at a line feed, and
/// holds no line feed.
pub open spec fn is_line(text: Seq<char>, a: int, b: int) -> bool {
    &&& 0 <= a <= b <= text.len()
    &&& (a == 0 || text[a - 1] == '\n')
    &&& (b == text.len() || text[b] == '\n')
    &&& forall|k: int| a <= k < b ==> text[k] != '\n'
}

/// The line `text[a..b]` yields the word `w`: normalised, it is `w`, and `w`
/// is a plain word.
pub open spec fn line_yields(text: Seq<char>, a: int, b: int, w: Seq<char>) -> bool {
    is_plain_word(normalize_line(text.subrange(a, b))) && normalize_line(text.subrange(a, b)) == w
}

/// The words that the lines of `text` ending before position `n` yield.
pub open spec fn words_before(text: Seq<char>, n: int) -> Set<Seq<char>> {
    Set::new(|w: Seq<char>| exists|a: int, b: int| is_line(text, a, b) && b < n && #[trigger] line_yields(text, a, b, w))
}

/// The words of a newline-separated word list: every line that normalises to
/// a plain word.
pub open spec fn listed_words(text: Seq<char>) -> Set<Seq<char>> {
    words_before(text, text.len() + 1int)
}

proof fn lemma_next_line(text: Seq<char>, start: int, i: int, a: int, b: int)
    requires
        0 <= start <= i <= text.len(),
        start == 0 || text[start - 1] == '\n',
        i == text.len() || text[i] == '\n',
        forall|k: int| start <= k < i ==> text[k] != '\n',
        is_line(text, a, b),
        b < i + 1,
        start <= b,
    ensures
        a == start && b == i,
{
    if b < i {
        assert(text[b] != '\n');
    }
    if a < start {
        assert(text[start - 1] != '\n');
    }
    if a > start {
        assert(text[a - 1] != '\n');
    }
}

/// An immutable set of lower-case words.
pub struct Dictionary {
    words: Vec<Vec<char>>,
}

impl View for Dictionary {
    type V = Set<Seq<char>>;

    closed spec fn view(&self) -> Set<Seq<char>> {
        Set::new(|w: Seq<char>| exists|i: int| 0 <= i < self.words.len() && self.words[i]@ == w)
    }
}

pub(crate) fn same_chars(a: &Vec<char>, b: &Vec<char>) -> (r: bool)
    ensures
        r == (a@ == b@),
{
    if a.len() != b.len() {
        return false;
    }
    let mut i: usize = 0;
    while i < a.len()
        invariant
            a.len() == b.len(),
            0 <= i <= a.len(),
            forall|j: int| 0 <= j < i ==> a@[j] == b@[j],
        decreases a.len() - i,
    {
        if a[i] != b[i] {
            return false;
        }
        i = i + 1;
    }
    assert(a@ =~= b@);
    true
}

fn lower_char_exec(c: char) -> (r: char)
    ensures
        r == lower_char(c),
{
    if 'A' <= c && c <= 'Z' {
        let code: u8 = (c as u32 + 32) as u8;
        code as char
    } else {
        c
    }
}

impl Dictionary {
    /// Every word of a dictionary is a plain lower-case word.
    pub closed spec fn wf(&self) -> bool {
        forall|i: int| 0 <= i < self.words.len() ==> is_plain_word(#[trigger] self.words[i]@)
    }

    /// The empty dictionary: no word ever matches.
    pub fn new() -> (d: Dictionary)
        ensures
            d.wf(),
            d@ == Set::<Seq<char>>::empty(),
    {
        let d = Dictionary { words: Vec::new() };
        assert(d@ =~= Set::<Seq<char>>::empty());
        d
    }

    /// The dictionary of a newline-separated word list: each line is read as
    /// `add_line` reads it, and the lines that are no plain word are skipped.
    pub fn from_text(text: &Vec<char>) -> (d: Dictionary)
        ensures
            d.wf(),
            d@ == listed_words(text@),
    {
        let mut d = Dictionary::new();
        let mut start: usize = 0;
        let mut i: usize = 0;
        proof {
            assert(d@ =~= words_before(text@, 0));
        }
        let mut done = false;
        while !done
            invariant
                d.wf(),
                0 <= start <= i <= text.len(),
                start == 0 || text@[start - 1] == '\n',
                forall|k: int| start <= k < i ==> text@[k] != '\n',
                !done ==> d@ == words_before(text@, start as int),
                done ==> d@ == listed_words(text@),
            decreases text.len() - i + if done { 0int } else { 1int },
        {
            if i == text.len() || text[i] == '\n' {
                let mut line: Vec<char> = Vec::new();
                let mut j: usize = start;
                while j < i
                    invariant
                        start <= j <= i <= text.len(),
                        line@ == text@.subrange(start as int, j as int),
                    decreases i - j,
                {
                    line.push(text[j]);
                    j = j + 1;
                    assert(line@ =~= text@.subrange(start as int, j as int));
                }
                let ghost before = d@;
                let taken = d.add_line(&line);
                let ghost w = normalize_line(line@);
                assert(is_line(text@, start as int, i as int));
                assert(d@ =~= words_before(text@, i + 1)) by {
                    assert forall|x: Seq<char>| #[trigger] words_before(text@, i + 1).contains(x) implies d@.contains(x) by {
                        let (a, b) = choose|a: int, b: int|
                            is_line(text@, a, b) && b < i + 1 && #[trigger] line_yields(text@, a, b, x);
                        if b >= start {
                            lemma_next_line(text@, start as int, i as int, a, b);
                        } else {
                            assert(before.contains(x));
                        }
                    }
                    assert forall|x: Seq<char>| #[trigger] d@.contains(x) implies words_before(text@, i + 1).contains(x) by {
                        if taken && x == w {
                            assert(line_yields(text@, start as int, i as int, x));
                        } else {
                            let (a, b) = choose|a: int, b: int|
                                is_line(text@, a, b) && b < start && #[trigger] line_yields(text@, a, b, x);
                            assert(line_yields(text@, a, b, x));
                        }
                    }
                }
                if i == text.len() {
                    done = true;
                } else {
                    start = i + 1;
                    i = i + 1;
                }
            } else {
                i = i + 1;
            }
        }
        d
    }

    /// Whether `w` is a word of the dictionary.
    pub fn contains(&self, w: &Vec<char>) -> (r: bool)
        ensures
            r == self@.contains(w@),
    {
        let mut i: usize = 0;
        while i < self.words.len()
            invariant
                0 <= i <= self.words.len(),
                forall|j: int| 0 <= j < i ==> self.words[j]@ != w@,
            decreases self.words.len() - i,
        {
            if same_chars(&self.words[i], w) {
                return true;
            }
            i = i + 1;
        }
        false
    }

    /// Reads one line of a word list. A trailing carriage return is dropped
    /// and capitals are folded to lower case; the result joins the dictionary
    /// when it is a plain word, and the line is skipped otherwise.
    /// Returns whether the line was taken.
    pub fn add_line(&mut self, line: &Vec<char>) -> (taken: bool)
        requires
            old(self).wf(),
        ensures
            final(self).wf(),
            taken == is_plain_word(normalize_line(line@)),
            taken ==> final(self)@ == old(self)@.insert(normalize_line(line@)),
            !taken ==> final(self)@ == old(self)@,
    {
        let ghost target = normalize_line(line@);
        let mut end: usize = line.len();
        if end > 0 && line[end - 1] == '\r' {
            end = end - 1;
        }
        let ghost body = line@.subrange(0, end as int);
        assert(target =~= body.map_values(|c: char| lower_char(c))) by {
            if line@.len() > 0 && line@.last() == '\r' {
                assert(line@.drop_last() =~= body);
            } else {
                assert(line@ =~= body);
            }
        }
        let mut word: Vec<char> = Vec::new();
        let mut plain: bool = end >= 1;
        let mut i: usize = 0;
        while i < end
            invariant
                end <= line.len(),
                body == line@.subrange(0, end as int),
                target == body.map_values(|c: char| lower_char(c)),
                0 <= i <= end,
                word@ == target.subrange(0, i as int),
                plain == (end >= 1 && forall|j: int| 0 <= j < i ==> is_lower_letter(target[j])),
            decreases end - i,
        {
            let c = lower_char_exec(line[i]);
            assert(target[i as int] == c);
            plain = plain && 'a' <= c && c <= 'z';
            word.push(c);
            i = i + 1;
            assert(word@ =~= target.subrange(0, i as int));
            assert(plain == (end >= 1 && forall|j: int| 0 <= j < i ==> is_lower_letter(target[j]))) by {
                if plain {
                    assert forall|j: int| 0 <= j < i implies is_lower_letter(target[j]) by {
                        if j < i - 1 {
                        }
                    }
                }
            }
        }
        assert(word@ =~= target);
        if plain {
            let ghost before = self@;
            self.words.push(word);
            assert(self@ =~= before.insert(target)) by {
                assert forall|w: Seq<char>| #[trigger] self@.contains(w) implies before.insert(target).contains(w) by {
                    let k = choose|k: int| 0 <= k < self.words.len() && self.words[k]@ == w;
                    if k < self.words.len() - 1 {
                        assert(old(self).words[k]@ == w);
                    }
                }
                assert forall|w: Seq<char>| #[trigger] before.insert(target).contains(w) implies self@.contains(w) by {
                    if w == target {
                        assert(self.words[self.words.len() - 1]@ == w);
                    } else {
                        let k = choose|k: int| 0 <= k < old(self).words.len() && old(self).words[k]@ == w;
                        assert(self.words[k]@ == w);
                    }
                }
            }
            true
        } else {
            false
        }
    }
}

} // verus!
