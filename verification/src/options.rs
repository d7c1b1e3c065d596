//! What a run is set up with: the root of the tree and the patterns of the
//! paths to leave out.

use crate::globs::{
    builder_add, builder_build, builder_new, builder_patterns, error_text, glob_parses,
    glob_set_compiles, glob_set_match, parse_glob, set_is_match, set_patterns,
};
use crate::path::same_text;
use globset::GlobSet;
use vstd::prelude::*;

verus! {

/// Why a set of patterns was refused.
#[derive(Debug)]
pub enum PatternError {
    /// A pattern is no glob.
    Syntax {
        /// The pattern.
        pattern: String,
        /// What is wrong with it.
        message: String,
    },
    /// The patterns are globs, but no set could be made of them.
    Compile {
        /// What went wrong.
        message: String,
    },
}

/// The texts of a list of strings.
pub open spec fn texts(strings: Seq<String>) -> Seq<Seq<char>> {
    strings.map_values(|s: String| s@)
}

/// A list without its repetitions: of every text the first occurrence stays,
/// in its place.
pub open spec fn first_occurrences(patterns: Seq<Seq<char>>) -> Seq<Seq<char>>
    decreases patterns.len(),
{
    if patterns.len() == 0 {
        Seq::empty()
    } else {
        let before = first_occurrences(patterns.drop_last());
        if before.contains(patterns.last()) {
            before
        } else {
            before.push(patterns.last())
        }
    }
}

/// A list without its repetitions holds the same texts as the list.
pub proof fn lemma_first_occurrences(patterns: Seq<Seq<char>>)
    ensures
        forall|text: Seq<char>|
            first_occurrences(patterns).contains(text) <==> patterns.contains(text),
        first_occurrences(patterns).to_set() == patterns.to_set(),
    decreases patterns.len(),
{
    if patterns.len() > 0 {
        let rest = patterns.drop_last();
        let last = patterns.last();
        let before = first_occurrences(rest);
        let kept = first_occurrences(patterns);
        lemma_first_occurrences(rest);
        assert forall|text: Seq<char>| kept.contains(text) <==> patterns.contains(text) by {
            if patterns.contains(text) {
                let i = choose|i: int| 0 <= i < patterns.len() && patterns[i] == text;
                if i < rest.len() {
                    assert(rest[i] == text);
                }
            }
            if rest.contains(text) {
                let i = choose|i: int| 0 <= i < rest.len() && rest[i] == text;
                assert(patterns[i] == text);
            }
            assert(patterns[patterns.len() - 1] == last);
            if !before.contains(last) {
                assert(kept[kept.len() - 1] == last);
                if before.contains(text) {
                    let i = choose|i: int| 0 <= i < before.len() && before[i] == text;
                    assert(kept[i] == text);
                }
                if kept.contains(text) {
                    let i = choose|i: int| 0 <= i < kept.len() && kept[i] == text;
                    if i < before.len() {
                        assert(before[i] == text);
                    }
                }
            }
        }
    }
    assert(first_occurrences(patterns).to_set() =~= patterns.to_set());
}

/// The first of `patterns` that is no glob stands at `index`.
pub open spec fn first_bad_at(patterns: Seq<Seq<char>>, index: int) -> bool {
    &&& 0 <= index < patterns.len()
    &&& !glob_parses(patterns[index])
    &&& forall|j: int| 0 <= j < index ==> glob_parses(#[trigger] patterns[j])
}

/// Every one of `patterns` is a glob.
pub open spec fn all_parse(patterns: Seq<Seq<char>>) -> bool {
    forall|j: int| 0 <= j < patterns.len() ==> glob_parses(#[trigger] patterns[j])
}

/// No text occurs twice.
pub open spec fn distinct(patterns: Seq<Seq<char>>) -> bool {
    forall|i: int, j: int| 0 <= i < j < patterns.len() ==> patterns[i] != patterns[j]
}

/// Whether `text` is among the strings of `list`.
fn holds(list: &Vec<String>, text: &str) -> (found: bool)
    ensures
        found == texts(list@).contains(text@),
{
    let mut at: usize = 0;
    while at < list.len()
        invariant
            at <= list@.len(),
            forall|j: int| 0 <= j < at ==> texts(list@)[j] != text@,
        decreases list@.len() - at,
    {
        assert(texts(list@)[at as int] == list@[at as int]@);
        if same_text(list[at].as_str(), text) {
            return true;
        }
        at = at + 1;
    }
    false
}

/// Takes the repetitions out of a list of patterns.
pub fn dedup_patterns(patterns: Vec<String>) -> (kept: Vec<String>)
    ensures
        texts(kept@) == first_occurrences(texts(patterns@)),
        distinct(texts(kept@)),
{
    let mut kept: Vec<String> = Vec::new();
    let mut at: usize = 0;
    assert(texts(patterns@).take(0) =~= Seq::<Seq<char>>::empty());
    assert(texts(kept@) =~= Seq::<Seq<char>>::empty());
    while at < patterns.len()
        invariant
            at <= patterns@.len(),
            texts(kept@) == first_occurrences(texts(patterns@).take(at as int)),
            distinct(texts(kept@)),
        decreases patterns@.len() - at,
    {
        let pattern = patterns[at].clone();
        let ghost seen = texts(patterns@).take(at as int);
        let ghost next = texts(patterns@).take(at + 1);
        assert(next.drop_last() =~= seen);
        assert(next.last() == pattern@);
        if !holds(&kept, pattern.as_str()) {
            let ghost before = texts(kept@);
            kept.push(pattern);
            assert(texts(kept@) =~= before.push(next.last()));
        }
        at = at + 1;
    }
    assert(texts(patterns@).take(at as int) =~= texts(patterns@));
    kept
}

/// The set-up of a run: the root of the tree, the patterns that exclude
/// paths, and the matcher made of them.
#[derive(Debug)]
pub struct Options {
    base_dir: String,
    exclude_set: Vec<String>,
    exclude_globset: GlobSet,
}

impl Options {
    /// The patterns that exclude paths.
    pub closed spec fn patterns(&self) -> Seq<Seq<char>> {
        texts(self.exclude_set@)
    }

    /// The root of the tree.
    pub closed spec fn root(&self) -> Seq<char> {
        self.base_dir@
    }

    /// The matcher was made of the patterns, and no pattern occurs twice.
    pub closed spec fn wf(&self) -> bool {
        &&& set_patterns(self.exclude_globset) == self.patterns()
        &&& distinct(self.patterns())
    }

    /// Whether `path` is excluded: some pattern matches it.
    pub open spec fn excluded(&self, path: Seq<char>) -> bool {
        glob_set_match(self.patterns().to_set(), path)
    }

    /// Makes the set-up of a run. Repeated patterns count once. All patterns
    /// have to be globs, and a matcher has to come of them: there is no
    /// set-up that leaves a pattern out.
    pub fn new(base_dir: String, globs_args: Vec<String>) -> (made: Result<Options, PatternError>)
        ensures
            match made {
                Ok(options) => {
                    &&& options.wf()
                    &&& options.root() == base_dir@
                    &&& options.patterns() == first_occurrences(texts(globs_args@))
                    &&& options.patterns().to_set() == texts(globs_args@).to_set()
                    &&& all_parse(options.patterns())
                    &&& glob_set_compiles(options.patterns())
                },
                Err(PatternError::Syntax { pattern, .. }) => exists|index: int|
                    first_bad_at(first_occurrences(texts(globs_args@)), index) && pattern@
                        == first_occurrences(texts(globs_args@))[index],
                Err(PatternError::Compile { .. }) => {
                    &&& all_parse(first_occurrences(texts(globs_args@)))
                    &&& !glob_set_compiles(first_occurrences(texts(globs_args@)))
                },
            },
            globs_args@.len() == 0 ==> made is Ok,
    {
        let exclude_set = dedup_patterns(globs_args);
        let ghost wanted = first_occurrences(texts(globs_args@));
        proof {
            lemma_first_occurrences(texts(globs_args@));
        }
        let mut builder = builder_new();
        let mut at: usize = 0;
        assert(texts(exclude_set@).take(0) =~= Seq::<Seq<char>>::empty());
        while at < exclude_set.len()
            invariant
                at <= exclude_set@.len(),
                texts(exclude_set@) == wanted,
                wanted == first_occurrences(texts(globs_args@)),
                globs_args@.len() == 0 ==> wanted.len() == 0,
                builder_patterns(builder) == texts(exclude_set@).take(at as int),
                forall|j: int| 0 <= j < at ==> glob_parses(#[trigger] texts(exclude_set@)[j]),
            decreases exclude_set@.len() - at,
        {
            assert(texts(exclude_set@)[at as int] == exclude_set@[at as int]@);
            match parse_glob(exclude_set[at].as_str()) {
                Ok(glob) => {
                    builder_add(&mut builder, glob);
                    assert(texts(exclude_set@).take(at + 1) =~= texts(exclude_set@).take(
                        at as int,
                    ).push(texts(exclude_set@)[at as int]));
                },
                Err(error) => {
                    assert(first_bad_at(texts(exclude_set@), at as int));
                    return Err(
                        PatternError::Syntax {
                            pattern: exclude_set[at].clone(),
                            message: error_text(&error),
                        },
                    );
                },
            }
            at = at + 1;
        }
        assert(texts(exclude_set@).take(at as int) =~= texts(exclude_set@));
        match builder_build(&builder) {
            Ok(exclude_globset) => Ok(Options { base_dir, exclude_set, exclude_globset }),
            Err(error) => Err(PatternError::Compile { message: error_text(&error) }),
        }
    }

    /// The root of the tree.
    pub fn base_dir(&self) -> (root: &String)
        ensures
            root@ == self.root(),
    {
        &self.base_dir
    }

    /// The patterns that exclude paths, each once.
    pub fn exclude_set(&self) -> (patterns: &Vec<String>)
        ensures
            texts(patterns@) == self.patterns(),
    {
        &self.exclude_set
    }

    /// Whether some pattern matches `path`. Without patterns no path is
    /// excluded.
    pub fn excludes(&self, path: &str) -> (excluded: bool)
        requires
            self.wf(),
        ensures
            excluded == self.excluded(path@),
            self.patterns().len() == 0 ==> !excluded,
    {
        set_is_match(&self.exclude_globset, path)
    }
}

/// What is excluded depends on which patterns were given, not on their order
/// nor on how often each was given: two set-ups with the same patterns
/// exclude the same paths.
pub proof fn lemma_same_patterns_exclude_alike(one: Options, other: Options, path: Seq<char>)
    requires
        one.patterns().to_set() == other.patterns().to_set(),
    ensures
        one.excluded(path) == other.excluded(path),
{
}

} // verus!
