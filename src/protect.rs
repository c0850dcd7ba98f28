use vstd::prelude::*;
use vstd::string::StringSliceAdditionalSpecFns;
use vstd::utf8::encode_utf8;

verus! {

/// How a protected-branch pattern is held against a branch name.
#[derive(Clone, Copy, Debug, PartialEq, Eq, Structural)]
pub enum MatchMode {
    /// The name must equal the pattern.
    Exact,
    /// The name must start with the pattern.
    Prefix,
}

/// Pattern `pat` covers branch name `name`, both as UTF-8 bytes.
pub open spec fn pattern_matches(mode: MatchMode, pat: Seq<u8>, name: Seq<u8>) -> bool {
    match mode {
        MatchMode::Exact => pat == name,
        MatchMode::Prefix => pat.len() <= name.len() && name.subrange(0, pat.len() as int) == pat,
    }
}

fn bytes_match(mode: MatchMode, pat: &[u8], name: &[u8]) -> (r: bool)
    ensures
        r == pattern_matches(mode, pat@, name@),
{
    match mode {
        MatchMode::Exact => {
            if pat.len() != name.len() {
                return false;
            }
        },
        MatchMode::Prefix => {
            if pat.len() > name.len() {
                return false;
            }
        },
    }
    let mut i: usize = 0;
    while i < pat.len()
        invariant
            pat@.len() <= name@.len(),
            mode == MatchMode::Exact ==> pat@.len() == name@.len(),
            i <= pat@.len(),
            forall|j: int| 0 <= j < i ==> pat@[j] == name@[j],
        decreases pat.len() - i,
    {
        if pat[i] != name[i] {
            assert(name@.subrange(0, pat@.len() as int)[i as int] != pat@[i as int]);
            return false;
        }
        i = i + 1;
    }
    assert(name@.subrange(0, pat@.len() as int) =~= pat@);
    if mode == MatchMode::Exact {
        assert(name@ =~= pat@);
    }
    true
}

/// The branches that no rewrite may touch, named by patterns that are loaded
/// once and then only read.
pub struct ProtectedBranches {
    patterns: Vec<String>,
    mode: MatchMode,
}

impl ProtectedBranches {
    pub closed spec fn pattern_seq(&self) -> Seq<Seq<char>> {
        self.patterns@.map_values(|p: String| p@)
    }

    pub closed spec fn match_mode(&self) -> MatchMode {
        self.mode
    }

    pub fn new(patterns: Vec<String>, mode: MatchMode) -> (r: ProtectedBranches)
        ensures
            r.pattern_seq() == patterns@.map_values(|p: String| p@),
            r.match_mode() == mode,
    {
        ProtectedBranches { patterns, mode }
    }

    /// Whether some pattern covers the branch `name`.
    pub fn is_protected(&self, name: &str) -> (r: bool)
        ensures
            r == exists|i: int|
                0 <= i < self.pattern_seq().len() && #[trigger] pattern_matches(
                    self.match_mode(),
                    encode_utf8(self.pattern_seq()[i]),
                    name.spec_bytes(),
                ),
    {
        let mut i: usize = 0;
        while i < self.patterns.len()
            invariant
                i <= self.pattern_seq().len(),
                self.pattern_seq().len() == self.patterns@.len(),
                forall|j: int|
                    0 <= j < i ==> !#[trigger] pattern_matches(
                        self.mode,
                        encode_utf8(self.pattern_seq()[j]),
                        name.spec_bytes(),
                    ),
            decreases self.patterns.len() - i,
        {
            let pat: &str = self.patterns[i].as_str();
            if bytes_match(self.mode, pat.as_bytes(), name.as_bytes()) {
                assert(self.pattern_seq()[i as int] == self.patterns@[i as int]@);
                return true;
            }
            assert(self.pattern_seq()[i as int] == self.patterns@[i as int]@);
            i = i + 1;
        }
        false
    }
}

} // verus!
