//! The embedding table: a mapping from unique words to equal-length vectors,
//! and the loader that builds it from the lines of a model file.
use vstd::prelude::*;

verus! {

/// The characters with Unicode's White_Space property.
pub open spec fn is_white_space(c: char) -> bool {
    let u = c as u32;
    ||| 0x9 <= u <= 0xd
    ||| u == 0x20
    ||| u == 0x85
    ||| u == 0xa0
    ||| u == 0x1680
    ||| 0x2000 <= u <= 0x200a
    ||| u == 0x2028
    ||| u == 0x2029
    ||| u == 0x202f
    ||| u == 0x205f
    ||| u == 0x3000
}

/// The maximal runs of non-white-space characters of `current + s`, in
/// order, where `current` is a run already begun.
pub open spec fn runs_after(current: Seq<char>, s: Seq<char>) -> Seq<Seq<char>>
    decreases s.len(),
{
    if s.len() == 0 {
        if current.len() == 0 {
            Seq::empty()
        } else {
            seq![current]
        }
    } else if is_white_space(s[0]) {
        let rest = runs_after(Seq::empty(), s.drop_first());
        if current.len() == 0 {
            rest
        } else {
            seq![current] + rest
        }
    } else {
        runs_after(current.push(s[0]), s.drop_first())
    }
}

/// The whitespace-separated tokens of a line: its maximal runs of
/// characters that are not white space, in order.
pub open spec fn whitespace_tokens(s: Seq<char>) -> Seq<Seq<char>> {
    runs_after(Seq::empty(), s)
}

/// The characters of each string.
pub open spec fn strings_view(v: Seq<String>) -> Seq<Seq<char>> {
    v.map_values(|s: String| s@)
}

/// Relies on `str::split_whitespace`, which yields the maximal runs of
/// characters without the White_Space property.
#[verifier::external_body]
fn split_tokens(line: &str) -> (r: Vec<String>)
    ensures
        strings_view(r@) == whitespace_tokens(line@),
{
    line.split_whitespace().map(String::from).collect()
}

/// The word of a tokenized line: its first token, or the empty word for a
/// line without tokens.
pub open spec fn word_of(tokens: Seq<Seq<char>>) -> Seq<char> {
    if tokens.len() == 0 {
        Seq::empty()
    } else {
        tokens[0]
    }
}

/// The coordinate tokens of a tokenized line: all tokens after the word.
pub open spec fn coordinates_of(tokens: Seq<Seq<char>>) -> Seq<Seq<char>> {
    if tokens.len() == 0 {
        Seq::empty()
    } else {
        tokens.subrange(1, tokens.len() as int)
    }
}

/// `parse` may return `r` on a string whose characters are `token`.
pub open spec fn parse_gives<C, F: Fn(&str) -> Option<C>>(
    parse: F,
    token: Seq<char>,
    r: Option<C>,
) -> bool {
    exists|s: &str| s@ == token && #[trigger] parse.ensures((s,), r)
}

/// `parse` never rejects a string whose characters are `token`.
pub open spec fn parse_accepts<C, F: Fn(&str) -> Option<C>>(parse: F, token: Seq<char>) -> bool {
    forall|s: &str, r: Option<C>| s@ == token && #[trigger] parse.ensures((s,), r) ==> r.is_some()
}

/// `parse` rejects every string whose characters are `token`.
pub open spec fn parse_rejects<C, F: Fn(&str) -> Option<C>>(parse: F, token: Seq<char>) -> bool {
    forall|s: &str, r: Option<C>| s@ == token && #[trigger] parse.ensures((s,), r) ==> r.is_none()
}

/// `vector` holds, coordinate by coordinate, what `parse` returned on the
/// tokens `coordinates`.
pub open spec fn parsed_from<C, F: Fn(&str) -> Option<C>>(
    parse: F,
    coordinates: Seq<Seq<char>>,
    vector: Seq<C>,
) -> bool {
    &&& vector.len() == coordinates.len()
    &&& forall|k: int| 0 <= k < vector.len() ==> parse_gives(parse, coordinates[k], Some(vector[k]))
}

/// Splits one line of a model file into its word and its parsed
/// coordinates. On failure the error is the first coordinate token that
/// `parse` rejected.
pub fn parse_line<C, F: Fn(&str) -> Option<C>>(line: &str, parse: &F) -> (r: Result<
    (String, Vec<C>),
    String,
>)
    requires
        forall|s: &str| #[trigger] parse.requires((s,)),
    ensures
        match r {
            Ok((word, vector)) => {
                &&& word@ == word_of(whitespace_tokens(line@))
                &&& parsed_from(*parse, coordinates_of(whitespace_tokens(line@)), vector@)
            },
            Err(token) => coordinates_of(whitespace_tokens(line@)).contains(token@) && parse_gives(
                *parse,
                token@,
                None,
            ),
        },
        (forall|k: int|
            0 <= k < coordinates_of(whitespace_tokens(line@)).len() ==> parse_accepts(
                *parse,
                #[trigger] coordinates_of(whitespace_tokens(line@))[k],
            )) ==> r is Ok,
{
    let tokens = split_tokens(line);
    parse_tokens(&tokens, parse)
}

/// Splits a tokenized line into its word and its parsed coordinates, as
/// `parse_line` does after tokenizing.
pub fn parse_tokens<C, F: Fn(&str) -> Option<C>>(tokens: &Vec<String>, parse: &F) -> (r: Result<
    (String, Vec<C>),
    String,
>)
    requires
        forall|s: &str| #[trigger] parse.requires((s,)),
    ensures
        match r {
            Ok((word, vector)) => {
                &&& word@ == word_of(strings_view(tokens@))
                &&& parsed_from(*parse, coordinates_of(strings_view(tokens@)), vector@)
            },
            Err(token) => coordinates_of(strings_view(tokens@)).contains(token@) && parse_gives(
                *parse,
                token@,
                None,
            ),
        },
        (forall|k: int|
            0 <= k < coordinates_of(strings_view(tokens@)).len() ==> parse_accepts(
                *parse,
                #[trigger] coordinates_of(strings_view(tokens@))[k],
            )) ==> r is Ok,
{
    let ghost toks = strings_view(tokens@);
    let ghost coords = coordinates_of(toks);
    if tokens.len() == 0 {
        return Ok((String::new(), Vec::new()));
    }
    let word = tokens[0].clone();
    let mut vector: Vec<C> = Vec::new();
    let mut i: usize = 1;
    while i < tokens.len()
        invariant
            1 <= i <= tokens.len(),
            toks == strings_view(tokens@),
            coords == coordinates_of(toks),
            coords.len() == tokens.len() - 1,
            word@ == word_of(toks),
            forall|s: &str| #[trigger] parse.requires((s,)),
            parsed_from(*parse, coords.subrange(0, i - 1), vector@),
            forall|k: int| 0 <= k < i - 1 ==> coords[k] == tokens@[k + 1]@,
        decreases tokens.len() - i,
    {
        let token = tokens[i].as_str();
        assert(coords[i - 1] == token@);
        match parse(token) {
            Some(c) => {
                proof {
                    assert(parse_gives(*parse, coords[i - 1], Some(c)));
                }
                vector.push(c);
            },
            None => {
                assert(parse_gives(*parse, token@, None));
                assert(!parse_accepts(*parse, coords[i - 1 as int]));
                assert(coords.contains(token@));
                return Err(tokens[i].clone());
            },
        }
        i = i + 1;
    }
    assert(coords.subrange(0, i - 1) =~= coords);
    Ok((word, vector))
}

/// The tokens of line `i`.
pub open spec fn line_tokens(lines: Seq<Seq<char>>, i: int) -> Seq<Seq<char>> {
    whitespace_tokens(lines[i])
}

/// The words of the lines, each once, in the order of first appearance.
pub open spec fn distinct_words(lines: Seq<Seq<char>>) -> Seq<Seq<char>>
    decreases lines.len(),
{
    if lines.len() == 0 {
        Seq::empty()
    } else {
        let earlier = distinct_words(lines.drop_last());
        let w = word_of(whitespace_tokens(lines.last()));
        if earlier.contains(w) {
            earlier
        } else {
            earlier.push(w)
        }
    }
}

/// The last of the lines whose word is `w`; -1 where there is none.
pub open spec fn last_line_with(lines: Seq<Seq<char>>, w: Seq<char>) -> int
    decreases lines.len(),
{
    if lines.len() == 0 {
        -1
    } else if word_of(whitespace_tokens(lines.last())) == w {
        lines.len() - 1
    } else {
        last_line_with(lines.drop_last(), w)
    }
}

/// Every line has as many coordinates as the first.
pub open spec fn dimensions_agree(lines: Seq<Seq<char>>) -> bool {
    forall|i: int|
        0 <= i < lines.len() ==> coordinates_of(#[trigger] line_tokens(lines, i)).len()
            == coordinates_of(line_tokens(lines, 0)).len()
}

/// `parse` may return some value on a string whose characters are `token`.
pub open spec fn parse_gave_value<C, F: Fn(&str) -> Option<C>>(parse: F, token: Seq<char>) -> bool {
    exists|c: C| parse_gives(parse, token, Some(c))
}

/// `parse` returned a value on every coordinate token of every line.
pub open spec fn all_parsed<C, F: Fn(&str) -> Option<C>>(parse: F, lines: Seq<Seq<char>>) -> bool {
    forall|i: int, k: int|
        0 <= i < lines.len() && 0 <= k < coordinates_of(line_tokens(lines, i)).len()
            ==> parse_gave_value(parse, #[trigger] coordinates_of(line_tokens(lines, i))[k])
}

/// Why a model file could not be loaded. Line numbers count from zero.
#[derive(Debug, PartialEq, Eq)]
pub enum LoadError {
    /// A coordinate token that does not parse as a number.
    InvalidCoordinate { line: usize, token: String },
    /// A line whose vector length differs from that of the table.
    DimensionMismatch { line: usize, word: String, expected: usize, found: usize },
}

/// A mapping from words, each stored once, to vectors of one common length.
/// Entries keep the order in which their words first appeared.
pub struct EmbeddingTable<C> {
    words: Vec<String>,
    vectors: Vec<Vec<C>>,
}

impl<C> EmbeddingTable<C> {
    /// The number of entries.
    pub open spec fn spec_len(&self) -> nat {
        self.spec_words().len()
    }

    /// The word of entry `i`.
    pub open spec fn spec_word(&self, i: int) -> Seq<char> {
        self.spec_words()[i]
    }

    /// The words of all entries, in order.
    pub closed spec fn spec_words(&self) -> Seq<Seq<char>> {
        strings_view(self.words@)
    }

    /// The vector of entry `i`.
    pub closed spec fn spec_vector(&self, i: int) -> Vec<C> {
        self.vectors@[i]
    }

    /// There is one vector for each word.
    pub closed spec fn one_vector_per_word(&self) -> bool {
        self.words@.len() == self.vectors@.len()
    }

    /// Words are unique and every vector has the same length.
    pub open spec fn wf(&self) -> bool {
        &&& self.one_vector_per_word()
        &&& self.spec_words().no_duplicates()
        &&& forall|i: int|
            0 <= i < self.spec_len() ==> #[trigger] self.spec_vector(i).len()
                == self.spec_vector(0).len()
    }

    /// The table with no entries.
    pub fn new() -> (r: Self)
        ensures
            r.wf(),
            r.spec_words() == Seq::<Seq<char>>::empty(),
    {
        let r = EmbeddingTable { words: Vec::new(), vectors: Vec::new() };
        assert(r.spec_words() =~= Seq::<Seq<char>>::empty());
        r
    }

    /// The number of entries.
    pub fn len(&self) -> (r: usize)
        ensures
            r == self.spec_len(),
    {
        self.words.len()
    }

    /// The common length of the vectors; zero for an empty table.
    pub fn dimension(&self) -> (r: usize)
        requires
            self.wf(),
        ensures
            self.spec_len() > 0 ==> forall|i: int|
                0 <= i < self.spec_len() ==> #[trigger] self.spec_vector(i).len() == r,
            self.spec_len() == 0 ==> r == 0,
    {
        if self.vectors.len() == 0 {
            0
        } else {
            self.vectors[0].len()
        }
    }

    /// The word of entry `i`.
    pub fn word(&self, i: usize) -> (r: &String)
        requires
            i < self.spec_len(),
        ensures
            r@ == self.spec_word(i as int),
    {
        &self.words[i]
    }

    /// The vector of entry `i`.
    pub fn vector(&self, i: usize) -> (r: &Vec<C>)
        requires
            self.wf(),
            i < self.spec_len(),
        ensures
            *r == self.spec_vector(i as int),
    {
        &self.vectors[i]
    }

    /// The words of all entries, in order.
    pub fn words(&self) -> (r: &Vec<String>)
        ensures
            strings_view(r@) == self.spec_words(),
    {
        &self.words
    }

    /// The position of `word` among the entries, if it has one.
    fn find(&self, word: &String) -> (r: Option<usize>)
        ensures
            match r {
                Some(i) => i < self.spec_len() && self.spec_word(i as int) == word@,
                None => !self.spec_words().contains(word@),
            },
    {
        let mut i: usize = 0;
        while i < self.words.len()
            invariant
                i <= self.words@.len(),
                forall|k: int| 0 <= k < i ==> self.words@[k]@ != word@,
            decreases self.words@.len() - i,
        {
            if self.words[i] == *word {
                return Some(i);
            }
            i = i + 1;
        }
        proof {
            if self.spec_words().contains(word@) {
                let k = choose|k: int| 0 <= k < self.spec_words().len() && self.spec_words()[k] == word@;
                assert(self.words@[k]@ == word@);
            }
        }
        None
    }

    /// Stores `vector` under `word`, replacing the vector of an entry that
    /// already has that word and adding a new last entry otherwise. A vector
    /// whose length differs from that of the entries already held is refused
    /// with that length, and the table is left as it was.
    pub fn insert(&mut self, word: String, vector: Vec<C>) -> (r: Result<(), usize>)
        requires
            old(self).wf(),
        ensures
            final(self).wf(),
            match r {
                Ok(()) => {
                    &&& old(self).spec_len() > 0 ==> vector@.len() == old(self).spec_vector(0).len()
                    &&& if old(self).spec_words().contains(word@) {
                        &&& final(self).spec_words() == old(self).spec_words()
                        &&& forall|i: int|
                            0 <= i < old(self).spec_len() ==> #[trigger] final(self).spec_vector(i)
                                == if old(self).spec_word(i) == word@ {
                                vector
                            } else {
                                old(self).spec_vector(i)
                            }
                    } else {
                        &&& final(self).spec_words() == old(self).spec_words().push(word@)
                        &&& final(self).spec_vector(old(self).spec_len() as int) == vector
                        &&& forall|i: int|
                            0 <= i < old(self).spec_len() ==> #[trigger] final(self).spec_vector(i)
                                == old(self).spec_vector(i)
                    }
                },
                Err(expected) => {
                    &&& old(self).spec_len() > 0
                    &&& expected == old(self).spec_vector(0).len()
                    &&& vector@.len() != expected
                    &&& *final(self) == *old(self)
                },
            },
    {
        if self.vectors.len() > 0 && vector.len() != self.vectors[0].len() {
            return Err(self.vectors[0].len());
        }
        match self.find(&word) {
            Some(i) => {
                proof {
                    assert forall|k: int| 0 <= k < old(self).spec_len() && old(self).spec_word(k) == word@ implies k == i by {
                        assert(old(self).spec_words()[k] == old(self).spec_words()[i as int]);
                    }
                }
                let ghost v = vector;
                self.vectors.set(i, vector);
                assert forall|k: int| 0 <= k < self.spec_len() implies #[trigger] self.spec_vector(
                    k,
                ).len() == self.spec_vector(0).len() by {
                    assert(old(self).spec_vector(k).len() == old(self).spec_vector(0).len());
                    assert(v@.len() == old(self).spec_vector(0).len());
                }
                assert(self.spec_words() == old(self).spec_words());
                assert(old(self).spec_words()[i as int] == word@);
                assert(old(self).spec_words().contains(word@));
            },
            None => {
                self.words.push(word);
                self.vectors.push(vector);
                proof {
                    assert(strings_view(self.words@) =~= strings_view(old(self).words@).push(word@));
                    assert(!old(self).spec_words().contains(word@));
                    assert(self.spec_vector(old(self).spec_len() as int) == vector);
                    assert forall|k: int| 0 <= k < self.spec_len() implies #[trigger] self.spec_vector(
                        k,
                    ).len() == self.spec_vector(0).len() by {
                        if k < old(self).spec_len() {
                            assert(old(self).spec_vector(k).len() == old(self).spec_vector(0).len());
                        }
                    }
                }
            },
        }
        Ok(())
    }
}

impl<C> EmbeddingTable<C> {
    /// Loads a table from the lines of a model file. Each line holds a word
    /// and then its coordinates, separated by whitespace; `parse` reads one
    /// coordinate. A word that occurs again replaces the earlier vector, in
    /// the entry of its first occurrence. All lines must have as many
    /// coordinates as the first one. Any failure returns the error of the
    /// first failing line and no table.
    pub fn from_lines<F: Fn(&str) -> Option<C>>(lines: &Vec<String>, parse: F) -> (r: Result<
        Self,
        LoadError,
    >)
        requires
            forall|s: &str| #[trigger] parse.requires((s,)),
        ensures
            match r {
                Ok(table) => {
                    &&& table.wf()
                    &&& all_parsed(parse, strings_view(lines@))
                    &&& dimensions_agree(strings_view(lines@))
                    &&& table.spec_words() == distinct_words(strings_view(lines@))
                    &&& forall|j: int|
                        0 <= j < table.spec_len() ==> parsed_from(
                            parse,
                            coordinates_of(
                                line_tokens(
                                    strings_view(lines@),
                                    last_line_with(strings_view(lines@), #[trigger] table.spec_word(j)),
                                ),
                            ),
                            table.spec_vector(j)@,
                        )
                },
                Err(LoadError::InvalidCoordinate { line, token }) => {
                    &&& line < lines@.len()
                    &&& coordinates_of(line_tokens(strings_view(lines@), line as int)).contains(token@)
                    &&& parse_gives(parse, token@, None)
                },
                Err(LoadError::DimensionMismatch { line, word, expected, found }) => {
                    &&& 0 < line < lines@.len()
                    &&& word@ == word_of(line_tokens(strings_view(lines@), line as int))
                    &&& expected == coordinates_of(line_tokens(strings_view(lines@), 0)).len()
                    &&& found == coordinates_of(line_tokens(strings_view(lines@), line as int)).len()
                    &&& expected != found
                },
            },
            dimensions_agree(strings_view(lines@)) && (forall|i: int, k: int|
                0 <= i < lines@.len() && 0 <= k < coordinates_of(
                    line_tokens(strings_view(lines@), i),
                ).len() ==> parse_accepts(
                    parse,
                    #[trigger] coordinates_of(line_tokens(strings_view(lines@), i))[k],
                )) ==> r is Ok,
            (exists|i: int, k: int|
                0 <= i < lines@.len() && 0 <= k < coordinates_of(
                    line_tokens(strings_view(lines@), i),
                ).len() && parse_rejects(
                    parse,
                    #[trigger] coordinates_of(line_tokens(strings_view(lines@), i))[k],
                )) ==> r is Err,
    {
        let ghost all = strings_view(lines@);
        let mut table: EmbeddingTable<C> = EmbeddingTable::new();
        let mut i: usize = 0;
        while i < lines.len()
            invariant
                i <= lines@.len(),
                all == strings_view(lines@),
                forall|s: &str| #[trigger] parse.requires((s,)),
                table.wf(),
                all_parsed(parse, all.subrange(0, i as int)),
                table.spec_words() == distinct_words(all.subrange(0, i as int)),
                forall|j: int|
                    0 <= j < table.spec_len() ==> parsed_from(
                        parse,
                        coordinates_of(
                            line_tokens(
                                all,
                                last_line_with(all.subrange(0, i as int), #[trigger] table.spec_word(j)),
                            ),
                        ),
                        table.spec_vector(j)@,
                    ),
                i == 0 ==> table.spec_len() == 0,
                i > 0 ==> table.spec_len() > 0 && table.spec_vector(0).len() == coordinates_of(
                    line_tokens(all, 0),
                ).len(),
                forall|l: int|
                    0 <= l < i ==> coordinates_of(#[trigger] line_tokens(all, l)).len()
                        == coordinates_of(line_tokens(all, 0)).len(),
            decreases lines@.len() - i,
        {
            let ghost before = all.subrange(0, i as int);
            let ghost upto = all.subrange(0, i + 1);
            assert(upto.drop_last() =~= before);
            assert(upto.last() == all[i as int]);
            assert(lines@[i as int]@ == all[i as int]);
            let (word, vector) = match parse_line(lines[i].as_str(), &parse) {
                Ok(entry) => entry,
                Err(token) => {
                    proof {
                        let coords = coordinates_of(line_tokens(all, i as int));
                        let k = choose|k: int| 0 <= k < coords.len() && coords[k] == token@;
                        assert(!parse_accepts(parse, coords[k]));
                    }
                    return Err(LoadError::InvalidCoordinate { line: i, token });
                },
            };
            assert forall|l: int, k: int|
                0 <= l < upto.len() && 0 <= k < coordinates_of(line_tokens(upto, l)).len() implies parse_gave_value(
                parse,
                #[trigger] coordinates_of(line_tokens(upto, l))[k],
            ) by {
                if l < i {
                    assert(upto[l] == before[l]);
                    assert(line_tokens(upto, l) == line_tokens(before, l));
                    assert(parse_gave_value(parse, coordinates_of(line_tokens(before, l))[k]));
                } else {
                    assert(upto[l] == lines@[i as int]@);
                    assert(line_tokens(upto, l) == whitespace_tokens(lines@[i as int]@));
                    assert(parse_gives(parse, coordinates_of(line_tokens(upto, l))[k], Some(vector@[k])));
                }
            }
            assert(all_parsed(parse, upto));
            let found = vector.len();
            if table.len() > 0 && found != table.dimension() {
                let expected = table.dimension();
                return Err(LoadError::DimensionMismatch { line: i, word, expected, found });
            }
            let ghost old_table = table;
            let ghost w = word@;
            let ghost vector_copy = vector;
            let inserted = table.insert(word, vector);
            assert(inserted is Ok);
            assert(table.spec_len() > 0 && table.spec_vector(0).len() == coordinates_of(
                line_tokens(all, 0),
            ).len()) by {
                assert(all[i as int] == lines@[i as int]@);
                assert(table.spec_words().len() == table.spec_len());
                assert(old_table.spec_words().len() == old_table.spec_len());
                assert(vector_copy@.len() == coordinates_of(line_tokens(all, i as int)).len());
                if i == 0 {
                    assert(!old_table.spec_words().contains(w));
                    assert(table.spec_vector(0) == vector_copy);
                } else {
                    assert(vector_copy@.len() == old_table.spec_vector(0).len());
                    if old_table.spec_words().contains(w) {
                        assert(table.spec_vector(0) == vector_copy || table.spec_vector(0)
                            == old_table.spec_vector(0));
                    } else {
                        assert(table.spec_vector(0) == old_table.spec_vector(0));
                    }
                }
            }
            assert forall|j: int| 0 <= j < table.spec_len() implies parsed_from(
                parse,
                coordinates_of(
                    line_tokens(all, last_line_with(upto, #[trigger] table.spec_word(j))),
                ),
                table.spec_vector(j)@,
            ) by {
                assert(table.spec_words().len() == table.spec_len());
                assert(old_table.spec_words().len() == old_table.spec_len());
                assert(table.spec_words()[j] == table.spec_word(j));
                if table.spec_word(j) != w {
                    assert(j < old_table.spec_len());
                    assert(table.spec_words()[j] == old_table.spec_words()[j]);
                    assert(old_table.spec_words()[j] == old_table.spec_word(j));
                    assert(last_line_with(upto, table.spec_word(j)) == last_line_with(
                        before,
                        old_table.spec_word(j),
                    ));
                    assert(table.spec_vector(j) == old_table.spec_vector(j));
                } else {
                    assert(last_line_with(upto, w) == i);
                    assert(table.spec_vector(j) == vector_copy);
                }
            }
            i = i + 1;
        }
        assert(all.subrange(0, i as int) =~= all);
        proof {
            if exists|l: int, k: int|
                0 <= l < lines@.len() && 0 <= k < coordinates_of(line_tokens(all, l)).len()
                    && parse_rejects(parse, #[trigger] coordinates_of(line_tokens(all, l))[k]) {
                let (l, k) = choose|l: int, k: int|
                    0 <= l < lines@.len() && 0 <= k < coordinates_of(line_tokens(all, l)).len()
                        && parse_rejects(parse, #[trigger] coordinates_of(line_tokens(all, l))[k]);
                assert(parse_gave_value(parse, coordinates_of(line_tokens(all, l))[k]));
                let c = choose|c: C| parse_gives(parse, coordinates_of(line_tokens(all, l))[k], Some(c));
                assert(parse_gives(parse, coordinates_of(line_tokens(all, l))[k], Some(c)));
            }
        }
        assert forall|l: int| 0 <= l < all.len() implies coordinates_of(
            #[trigger] line_tokens(all, l),
        ).len() == coordinates_of(line_tokens(all, 0)).len() by {}
        Ok(table)
    }
}

} // verus!
