//! The tray: the stack of collected letters and the search for the word at
//! its end.
use vstd::prelude::*;
use crate::dictionary::Dictionary;

verus! {

/// The suffix of `s` of length `n` is a word of `d`, and `n` is at least three.
pub open spec fn is_word_suffix(s: Seq<char>, d: Set<Seq<char>>, n: int) -> bool {
    3 <= n <= s.len() && d.contains(s.subrange(s.len() - n, s.len() as int))
}

/// The longest suffix of `s` that has at least three letters and is a word
/// of `d`; `None` when there is none.
pub open spec fn longest_word_suffix(s: Seq<char>, d: Set<Seq<char>>) -> Option<Seq<char>> {
    if exists|n: int| is_word_suffix(s, d, n) {
        let n = choose|n: int|
            is_word_suffix(s, d, n) && forall|m: int| is_word_suffix(s, d, m) ==> m <= n;
        Some(s.subrange(s.len() - n, s.len() as int))
    } else {
        None
    }
}

/// The characters of an optional word.
pub open spec fn opt_chars(o: Option<Vec<char>>) -> Option<Seq<char>> {
    match o {
        Some(w) => Some(w@),
        None => None,
    }
}

/// `p` is a prefix of `t`.
pub open spec fn is_prefix_of(p: Seq<char>, t: Seq<char>) -> bool {
    p.len() <= t.len() && t.subrange(0, p.len() as int) == p
}

proof fn lemma_longest_is(s: Seq<char>, d: Set<Seq<char>>, n: int)
    requires
        is_word_suffix(s, d, n),
        forall|m: int| is_word_suffix(s, d, m) ==> m <= n,
    ensures
        longest_word_suffix(s, d) == Some(s.subrange(s.len() - n, s.len() as int)),
{
    let k = choose|k: int|
        is_word_suffix(s, d, k) && forall|m: int| is_word_suffix(s, d, m) ==> m <= k;
    assert(k <= n && n <= k);
}

proof fn lemma_max_exists(s: Seq<char>, d: Set<Seq<char>>, k: int)
    requires
        exists|n: int| n <= k && is_word_suffix(s, d, n),
        forall|m: int| k < m ==> !is_word_suffix(s, d, m),
    ensures
        exists|n: int| is_word_suffix(s, d, n) && forall|m: int| is_word_suffix(s, d, m) ==> m <= n,
    decreases k,
{
    if is_word_suffix(s, d, k) {
        assert(forall|m: int| is_word_suffix(s, d, m) ==> m <= k);
    } else {
        let n0 = choose|n: int| n <= k && is_word_suffix(s, d, n);
        assert(n0 <= k - 1);
        lemma_max_exists(s, d, k - 1);
    }
}

proof fn lemma_longest_shape(s: Seq<char>, d: Set<Seq<char>>)
    ensures
        match longest_word_suffix(s, d) {
            Some(w) => 3 <= w.len() <= s.len() && w == s.subrange(s.len() - w.len(), s.len() as int)
                && d.contains(w),
            None => forall|n: int| !is_word_suffix(s, d, n),
        },
{
    if exists|n: int| is_word_suffix(s, d, n) {
        lemma_max_exists(s, d, s.len() as int);
    }
}

pub(crate) fn copy_chars(v: &Vec<char>) -> (r: Vec<char>)
    ensures
        r@ == v@,
{
    let mut r: Vec<char> = Vec::new();
    let mut i: usize = 0;
    while i < v.len()
        invariant
            0 <= i <= v.len(),
            r@ == v@.subrange(0, i as int),
        decreases v.len() - i,
    {
        r.push(v[i]);
        i = i + 1;
        assert(r@ =~= v@.subrange(0, i as int));
    }
    assert(r@ =~= v@);
    r
}

/// The longest suffix of `text`, three letters or more, that is a word of
/// `dict`; the lengths are tried from the longest down.
pub fn find_ending_word(text: &Vec<char>, dict: &Dictionary) -> (r: Option<Vec<char>>)
    ensures
        opt_chars(r) == longest_word_suffix(text@, dict@),
{
    let len = text.len();
    if len < 3 {
        assert(!exists|n: int| is_word_suffix(text@, dict@, n));
        return None;
    }
    let mut length: usize = len;
    while length >= 3
        invariant
            len == text.len(),
            2 <= length <= len,
            forall|m: int| length < m <= len ==> !is_word_suffix(text@, dict@, m),
        decreases length,
    {
        let start = len - length;
        let mut candidate: Vec<char> = Vec::new();
        let mut i: usize = start;
        while i < len
            invariant
                len == text.len(),
                start <= i <= len,
                candidate@ == text@.subrange(start as int, i as int),
            decreases len - i,
        {
            candidate.push(text[i]);
            i = i + 1;
            assert(candidate@ =~= text@.subrange(start as int, i as int));
        }
        if dict.contains(&candidate) {
            proof {
                lemma_longest_is(text@, dict@, length as int);
            }
            return Some(candidate);
        }
        length = length - 1;
    }
    assert(!exists|n: int| is_word_suffix(text@, dict@, n));
    None
}

/// Spelling a word of the dictionary onto a stack and then confirming takes
/// exactly that word off the stack's end again: the word found there is the
/// word spelled, and what remains below it is the stack as it was. This holds
/// unless a longer word of the dictionary ends the stack at that moment, in
/// which case the longer word is the one taken.
pub proof fn lemma_spell_then_commit(s: Seq<char>, d: Set<Seq<char>>, w: Seq<char>)
    requires
        d.contains(w),
        w.len() >= 3,
        forall|m: int| w.len() < m ==> !is_word_suffix(s + w, d, m),
    ensures
        longest_word_suffix(s + w, d) == Some(w),
        (s + w).subrange(0, (s + w).len() - w.len()) == s,
{
    let t = s + w;
    assert(t.subrange(t.len() - w.len(), t.len() as int) =~= w);
    assert(t.subrange(0, t.len() - w.len()) =~= s);
    assert(is_word_suffix(t, d, w.len() as int));
    lemma_longest_is(t, d, w.len() as int);
}

/// A word taken out of the tray: its letters and the first tray slot that it
/// occupied.
pub struct WordCommit {
    pub word: Vec<char>,
    pub first_slot: usize,
}

/// How the tray shows: the settled letters, the word found at the end, the
/// number of empty slots, and the letters past the capacity.
pub struct TraySections {
    pub settled: Vec<char>,
    pub word: Vec<char>,
    pub blanks: usize,
    pub overflow: Vec<char>,
}

fn copy_range(v: &Vec<char>, from: usize, to: usize) -> (r: Vec<char>)
    requires
        from <= to <= v.len(),
    ensures
        r@ == v@.subrange(from as int, to as int),
{
    let mut r: Vec<char> = Vec::new();
    let mut i: usize = from;
    while i < to
        invariant
            from <= i <= to <= v.len(),
            r@ == v@.subrange(from as int, i as int),
        decreases to - i,
    {
        r.push(v[i]);
        i = i + 1;
        assert(r@ =~= v@.subrange(from as int, i as int));
    }
    r
}

/// The tray together with the dictionary it is matched against.
pub struct KeyActions {
    char_stack: Vec<char>,
    capacity: usize,
    dictionary: Dictionary,
    longest_word_option: Option<Vec<char>>,
    all_collected_words: Vec<Vec<char>>,
}

impl KeyActions {
    /// The letters in the tray, oldest first.
    pub closed spec fn stack(&self) -> Seq<char> {
        self.char_stack@
    }

    /// How many letters the tray holds before the game is lost.
    pub closed spec fn capacity(&self) -> nat {
        self.capacity as nat
    }

    /// The dictionary's words.
    pub closed spec fn words(&self) -> Set<Seq<char>> {
        self.dictionary@
    }

    /// The word found at the end of the stack, if any.
    pub closed spec fn longest(&self) -> Option<Seq<char>> {
        opt_chars(self.longest_word_option)
    }

    /// The words committed so far, in order.
    pub closed spec fn collected(&self) -> Seq<Seq<char>> {
        self.all_collected_words@.map_values(|w: Vec<char>| w@)
    }

    /// The remembered match is always the longest word at the end of the
    /// stack.
    pub closed spec fn wf(&self) -> bool {
        &&& self.dictionary.wf()
        &&& self.longest() == longest_word_suffix(self.stack(), self.words())
    }

    /// In a well-formed tray the remembered match is the longest word at the
    /// end of the stack.
    pub proof fn lemma_longest_is_current(&self)
        requires
            self.wf(),
        ensures
            self.longest() == longest_word_suffix(self.stack(), self.words()),
    {
    }

    /// An empty tray of the given capacity over `dictionary`.
    pub fn new(dictionary: Dictionary, capacity: usize) -> (k: KeyActions)
        requires
            dictionary.wf(),
        ensures
            k.wf(),
            k.stack() == Seq::<char>::empty(),
            k.capacity() == capacity,
            k.words() == dictionary@,
            k.longest() == None::<Seq<char>>,
            k.collected() == Seq::<Seq<char>>::empty(),
    {
        let k = KeyActions {
            char_stack: Vec::new(),
            capacity,
            dictionary,
            longest_word_option: None,
            all_collected_words: Vec::new(),
        };
        assert(!exists|n: int| is_word_suffix(k.stack(), k.words(), n));
        assert(k.collected() =~= Seq::<Seq<char>>::empty());
        k
    }

    fn recompute_match(&mut self)
        requires
            old(self).dictionary.wf(),
        ensures
            final(self).wf(),
            final(self).stack() == old(self).stack(),
            final(self).capacity() == old(self).capacity(),
            final(self).words() == old(self).words(),
            final(self).collected() == old(self).collected(),
    {
        self.longest_word_option = find_ending_word(&self.char_stack, &self.dictionary);
    }

    /// Appends `c` to the stack and finds the word at its end again.
    pub fn push(&mut self, c: char)
        requires
            old(self).wf(),
        ensures
            final(self).wf(),
            final(self).stack() == old(self).stack().push(c),
            final(self).longest() == longest_word_suffix(final(self).stack(), final(self).words()),
            final(self).capacity() == old(self).capacity(),
            final(self).words() == old(self).words(),
            final(self).collected() == old(self).collected(),
    {
        self.char_stack.push(c);
        self.recompute_match();
    }

    /// Empties the stack; the collected words stay.
    pub fn clear(&mut self)
        requires
            old(self).wf(),
        ensures
            final(self).wf(),
            final(self).stack() == Seq::<char>::empty(),
            final(self).longest() == None::<Seq<char>>,
            final(self).capacity() == old(self).capacity(),
            final(self).words() == old(self).words(),
            final(self).collected() == old(self).collected(),
    {
        self.char_stack.clear();
        self.recompute_match();
        assert(!exists|n: int| is_word_suffix(self.stack(), self.words(), n));
    }

    /// Takes the last letter off the stack, if there is one.
    pub fn pop(&mut self)
        requires
            old(self).wf(),
        ensures
            final(self).wf(),
            final(self).stack() == if old(self).stack().len() == 0 {
                old(self).stack()
            } else {
                old(self).stack().drop_last()
            },
            final(self).capacity() == old(self).capacity(),
            final(self).words() == old(self).words(),
            final(self).collected() == old(self).collected(),
    {
        if self.char_stack.len() > 0 {
            self.char_stack.pop();
        }
        self.recompute_match();
    }

    /// On confirm: when a word ends the stack, its letters leave the stack's
    /// tail and the word joins the collected words. Without a word nothing
    /// changes.
    pub fn commit_word(&mut self) -> (r: Option<WordCommit>)
        requires
            old(self).wf(),
        ensures
            final(self).wf(),
            final(self).capacity() == old(self).capacity(),
            final(self).words() == old(self).words(),
            match old(self).longest() {
                None => {
                    &&& r.is_none()
                    &&& final(self).stack() == old(self).stack()
                    &&& final(self).collected() == old(self).collected()
                    &&& final(self).longest() == old(self).longest()
                },
                Some(w) => {
                    &&& r.is_some()
                    &&& r.unwrap().word@ == w
                    &&& r.unwrap().first_slot == old(self).stack().len() - w.len()
                    &&& final(self).stack() == old(self).stack().subrange(
                        0,
                        old(self).stack().len() - w.len(),
                    )
                    &&& final(self).collected() == old(self).collected().push(w)
                    &&& final(self).longest() == longest_word_suffix(
                        final(self).stack(),
                        final(self).words(),
                    )
                },
            },
    {
        let found = match &self.longest_word_option {
            None => None,
            Some(w) => Some(copy_chars(w)),
        };
        match found {
            None => None,
            Some(word) => {
                proof {
                    lemma_longest_shape(self.stack(), self.words());
                }
                let keep = self.char_stack.len() - word.len();
                self.char_stack.truncate(keep);
                let ghost before = self.collected();
                let copy = copy_chars(&word);
                self.all_collected_words.push(copy);
                assert(self.collected() =~= before.push(word@));
                self.recompute_match();
                Some(WordCommit { word, first_slot: keep })
            },
        }
    }

    /// Whether the stack holds more letters than the tray's capacity.
    pub fn is_overflowed(&self) -> (r: bool)
        ensures
            r == (self.stack().len() > self.capacity()),
    {
        self.char_stack.len() > self.capacity
    }

    /// The tray as it shows. Within the capacity, the word found at the end
    /// of the stack is set apart from the letters before it and the free
    /// slots are counted; an overflowing tray shows its first `capacity`
    /// letters as settled and the rest as overflow.
    pub fn display_sections(&self) -> (r: TraySections)
        requires
            self.wf(),
        ensures
            ({
                let s = self.stack();
                let cap = self.capacity();
                let shown = if s.len() > cap { cap as int } else { s.len() as int };
                let split = if s.len() > cap {
                    cap as int
                } else {
                    match self.longest() {
                        Some(w) => s.len() - w.len(),
                        None => s.len() as int,
                    }
                };
                &&& r.settled@ == s.subrange(0, split)
                &&& r.word@ == s.subrange(split, shown)
                &&& r.blanks == cap - shown
                &&& r.overflow@ == if s.len() > cap {
                    s.subrange(cap as int, s.len() as int)
                } else {
                    Seq::<char>::empty()
                }
            }),
    {
        proof {
            lemma_longest_shape(self.stack(), self.words());
        }
        let len = self.char_stack.len();
        let over = len > self.capacity;
        let shown = if over { self.capacity } else { len };
        let split = if over {
            self.capacity
        } else {
            match &self.longest_word_option {
                Some(w) => len - w.len(),
                None => len,
            }
        };
        let overflow = if over {
            copy_range(&self.char_stack, self.capacity, len)
        } else {
            Vec::new()
        };
        proof {
            if !over {
                assert(overflow@ =~= Seq::<char>::empty());
            }
        }
        TraySections {
            settled: copy_range(&self.char_stack, 0, split),
            word: copy_range(&self.char_stack, split, shown),
            blanks: self.capacity - shown,
            overflow,
        }
    }

    /// The letters in the tray, oldest first.
    pub fn char_stack(&self) -> (r: &Vec<char>)
        ensures
            r@ == self.stack(),
    {
        &self.char_stack
    }

    /// The word at the end of the stack, if any.
    pub fn longest_word_option(&self) -> (r: &Option<Vec<char>>)
        ensures
            opt_chars(*r) == self.longest(),
    {
        &self.longest_word_option
    }

    /// The words committed so far, in order.
    pub fn all_collected_words(&self) -> (r: &Vec<Vec<char>>)
        ensures
            r@.map_values(|w: Vec<char>| w@) == self.collected(),
    {
        &self.all_collected_words
    }

    /// The tray's capacity.
    pub fn capacity_limit(&self) -> (r: usize)
        ensures
            r == self.capacity(),
    {
        self.capacity
    }
}

} // verus!
