use std::sync::Arc;
use vstd::prelude::*;

verus! {

/// The character sequences that a list of borrowed words stands for.
pub open spec fn slices_view(words: Seq<&[char]>) -> Seq<Seq<char>> {
    words.map_values(|w: &[char]| w@)
}

/// The character sequences that a list of owned words stands for.
pub open spec fn words_view(words: Seq<Vec<char>>) -> Seq<Seq<char>> {
    words.map_values(|w: Vec<char>| w@)
}

/// Whether two words hold the same characters.
pub fn same_word(a: &[char], b: &[char]) -> (same: bool)
    ensures
        same == (a@ == b@),
{
    if a.len() != b.len() {
        return false;
    }
    let mut i: usize = 0;
    while i < a.len()
        invariant
            a.len() == b.len(),
            i <= a.len(),
            a@.take(i as int) == b@.take(i as int),
        decreases a.len() - i,
    {
        if a[i] != b[i] {
            return false;
        }
        i += 1;
        assert(a@.take(i as int) == a@.take(i - 1).push(a@[i - 1]));
        assert(b@.take(i as int) == b@.take(i - 1).push(b@[i - 1]));
    }
    assert(a@.take(i as int) == a@);
    assert(b@.take(i as int) == b@);
    true
}

/// Whether `word` is among the borrowed words.
pub fn slices_contain(words: &[&[char]], word: &[char]) -> (found: bool)
    ensures
        found == slices_view(words@).contains(word@),
{
    let mut i: usize = 0;
    while i < words.len()
        invariant
            i <= words.len(),
            forall|k: int| 0 <= k < i ==> slices_view(words@)[k] != word@,
        decreases words.len() - i,
    {
        if same_word(words[i], word) {
            assert(slices_view(words@)[i as int] == word@);
            return true;
        }
        i += 1;
    }
    false
}

/// Whether a character parts the words of a word list: a blank or a line
/// break.
pub open spec fn parts_words(c: char) -> bool {
    c == ' ' || c == '\t' || c == '\r' || c == '\n'
}

/// A word list read as far as it goes: the words that are complete, and the
/// characters of a word that has begun.
pub open spec fn read_list(list: Seq<char>) -> (Seq<Seq<char>>, Seq<char>)
    decreases list.len(),
{
    if list.len() == 0 {
        (Seq::empty(), Seq::empty())
    } else {
        let (complete, begun) = read_list(list.drop_last());
        if !parts_words(list.last()) {
            (complete, begun.push(list.last()))
        } else if begun.len() > 0 {
            (complete.push(begun), Seq::empty())
        } else {
            (complete, Seq::empty())
        }
    }
}

/// The words of a word list: the stretches of characters between blanks and
/// line breaks, in order.
pub open spec fn listed_words(list: Seq<char>) -> Seq<Seq<char>> {
    let (complete, begun) = read_list(list);
    if begun.len() > 0 {
        complete.push(begun)
    } else {
        complete
    }
}

/// A set of known words that can be asked for a word and walked through.
///
/// Membership is by exact characters: a caller that wants to ignore case
/// changes the case itself.
pub trait Dictionary {
    /// The words in the order in which they are walked through. A word may
    /// occur more than once.
    spec fn words(&self) -> Seq<Seq<char>>;

    /// Whether the dictionary holds `word`.
    fn contains_word(&self, word: &[char]) -> (found: bool)
        ensures
            found == self.words().contains(word@),
    ;

    /// Every word of the dictionary, in order.
    fn words_iter(&self) -> (all: Vec<&[char]>)
        ensures
            slices_view(all@) == self.words(),
    ;
}

/// A dictionary that owns its list of words.
#[derive(Clone, Debug)]
pub struct FullDictionary {
    words: Vec<Vec<char>>,
}

impl FullDictionary {
    /// A dictionary without words.
    pub fn new() -> (dictionary: Self)
        ensures
            dictionary.words() == Seq::<Seq<char>>::empty(),
    {
        let dictionary = FullDictionary { words: Vec::new() };
        assert(dictionary.words() =~= Seq::<Seq<char>>::empty());
        dictionary
    }

    /// A dictionary of the words given, in their order.
    pub fn from_words(words: Vec<Vec<char>>) -> (dictionary: Self)
        ensures
            dictionary.words() == words_view(words@),
    {
        FullDictionary { words }
    }

    /// A dictionary of the words of a word list, in the order of the list.
    /// The words of a list are parted by blanks and line breaks.
    pub fn from_word_list(list: &[char]) -> (dictionary: Self)
        ensures
            dictionary.words() == listed_words(list@),
    {
        let mut words: Vec<Vec<char>> = Vec::new();
        let mut begun: Vec<char> = Vec::new();
        let mut i: usize = 0;
        while i < list.len()
            invariant
                i <= list.len(),
                read_list(list@.take(i as int)) == (words_view(words@), begun@),
            decreases list.len() - i,
        {
            let c = list[i];
            let ghost complete = words_view(words@);
            proof {
                assert(list@.take(i + 1).drop_last() == list@.take(i as int));
                assert(list@.take(i + 1).last() == c);
            }
            if !(c == ' ' || c == '\t' || c == '\r' || c == '\n') {
                begun.push(c);
            } else if begun.len() > 0 {
                let ghost word = begun@;
                words.push(begun);
                begun = Vec::new();
                assert(words_view(words@) =~= complete.push(word));
            }
            i += 1;
        }
        assert(list@.take(i as int) == list@);
        if begun.len() > 0 {
            let ghost complete = words_view(words@);
            let ghost word = begun@;
            words.push(begun);
            assert(words_view(words@) =~= complete.push(word));
        }
        FullDictionary { words }
    }

    /// Adds a word behind the others.
    pub fn append_word(&mut self, word: Vec<char>)
        ensures
            final(self).words() == old(self).words().push(word@),
    {
        self.words.push(word);
        assert(self.words() =~= old(self).words().push(word@));
    }

    /// The number of words, counting repeats.
    pub fn word_count(&self) -> (n: usize)
        ensures
            n == self.words().len(),
    {
        self.words.len()
    }
}

impl Dictionary for FullDictionary {
    closed spec fn words(&self) -> Seq<Seq<char>> {
        words_view(self.words@)
    }

    fn contains_word(&self, word: &[char]) -> (found: bool) {
        let mut i: usize = 0;
        while i < self.words.len()
            invariant
                i <= self.words.len(),
                forall|k: int| 0 <= k < i ==> self.words()[k] != word@,
            decreases self.words.len() - i,
        {
            if same_word(self.words[i].as_slice(), word) {
                assert(self.words()[i as int] == word@);
                return true;
            }
            i += 1;
        }
        false
    }

    fn words_iter(&self) -> (all: Vec<&[char]>) {
        let mut all: Vec<&[char]> = Vec::new();
        let mut i: usize = 0;
        while i < self.words.len()
            invariant
                i <= self.words.len(),
                all@.len() == i,
                slices_view(all@) == self.words().take(i as int),
            decreases self.words.len() - i,
        {
            let word = self.words[i].as_slice();
            all.push(word);
            i += 1;
            proof {
                assert(slices_view(all@)[i - 1] == word@);
                assert(self.words()[i - 1] == self.words@[i - 1]@);
                assert(slices_view(all@) =~= self.words().take(i - 1).push(word@));
                assert(self.words().take(i as int) =~= self.words().take(i - 1).push(word@));
            }
        }
        assert(self.words().take(i as int) == self.words());
        all
    }
}

/// The words of several dictionaries, one dictionary after the other.
pub open spec fn merged_words<T: Dictionary>(children: Seq<Arc<T>>) -> Seq<Seq<char>>
    decreases children.len(),
{
    if children.len() == 0 {
        Seq::empty()
    } else {
        merged_words(children.drop_last()) + children.last().words()
    }
}

/// A word is among the merged words exactly when one of the dictionaries
/// holds it.
pub proof fn lemma_merged_contains<T: Dictionary>(children: Seq<Arc<T>>, word: Seq<char>)
    ensures
        merged_words(children).contains(word) <==> exists|i: int|
            0 <= i < children.len() && (#[trigger] children[i]).words().contains(word),
    decreases children.len(),
{
    if children.len() > 0 {
        let front = children.drop_last();
        let last = children.last();
        lemma_merged_contains(front, word);
        let merged = merged_words(children);
        assert(merged == merged_words(front) + last.words());
        if merged.contains(word) {
            let k = choose|k: int| 0 <= k < merged.len() && merged[k] == word;
            if k < merged_words(front).len() {
                assert(merged_words(front)[k] == word);
                let i = choose|i: int|
                    0 <= i < front.len() && (#[trigger] front[i]).words().contains(word);
                assert(children[i] == front[i]);
            } else {
                assert(last.words()[k - merged_words(front).len()] == word);
                assert(children[children.len() - 1] == last);
            }
        }
        if exists|i: int| 0 <= i < children.len() && (#[trigger] children[i]).words().contains(word) {
            let i = choose|i: int|
                0 <= i < children.len() && (#[trigger] children[i]).words().contains(word);
            if i < front.len() {
                assert(front[i] == children[i]);
                let k = choose|k: int|
                    0 <= k < merged_words(front).len() && merged_words(front)[k] == word;
                assert(merged[k] == word);
            } else {
                let k = choose|k: int| 0 <= k < last.words().len() && last.words()[k] == word;
                assert(merged[merged_words(front).len() + k] == word);
            }
        }
    }
}

/// Several dictionaries seen as one. The members are shared, not copied.
pub struct MergedDictionary<T: Dictionary> {
    children: Vec<Arc<T>>,
}

impl<T: Dictionary> MergedDictionary<T> {
    /// The member dictionaries, in the order in which they were added.
    pub closed spec fn members(&self) -> Seq<Arc<T>> {
        self.children@
    }

    /// A merged dictionary without members. It holds no word.
    pub fn new() -> (merged: Self)
        ensures
            merged.members().len() == 0,
            merged.words() == Seq::<Seq<char>>::empty(),
    {
        MergedDictionary { children: Vec::new() }
    }

    /// Adds a member behind the others.
    pub fn add_dictionary(&mut self, dictionary: Arc<T>)
        ensures
            final(self).members() == old(self).members().push(dictionary),
            final(self).words() == old(self).words() + dictionary.words(),
    {
        self.children.push(dictionary);
        assert(self.children@.drop_last() == old(self).children@);
    }

    /// The number of members.
    pub fn member_count(&self) -> (n: usize)
        ensures
            n == self.members().len(),
    {
        self.children.len()
    }
}

impl<T: Dictionary> Dictionary for MergedDictionary<T> {
    open spec fn words(&self) -> Seq<Seq<char>> {
        merged_words(self.members())
    }

    fn contains_word(&self, word: &[char]) -> (found: bool) {
        let mut i: usize = 0;
        while i < self.children.len()
            invariant
                i <= self.children.len(),
                forall|k: int| 0 <= k < i ==> !(#[trigger] self.children@[k]).words().contains(word@),
            decreases self.children.len() - i,
        {
            if self.children[i].contains_word(word) {
                proof {
                    lemma_merged_contains(self.children@, word@);
                }
                return true;
            }
            i += 1;
        }
        proof {
            lemma_merged_contains(self.children@, word@);
        }
        false
    }

    fn words_iter(&self) -> (all: Vec<&[char]>) {
        let mut all: Vec<&[char]> = Vec::new();
        let mut i: usize = 0;
        while i < self.children.len()
            invariant
                i <= self.children.len(),
                slices_view(all@) == merged_words(self.children@.take(i as int)),
            decreases self.children.len() - i,
        {
            let mut more = self.children[i].words_iter();
            let ghost before = all@;
            let ghost added = more@;
            all.append(&mut more);
            i += 1;
            proof {
                assert(all@ == before + added);
                assert(slices_view(all@) =~= slices_view(before) + slices_view(added));
                assert(self.children@.take(i as int).drop_last() == self.children@.take(i - 1));
            }
        }
        assert(self.children@.take(i as int) == self.children@);
        all
    }
}

} // verus!
