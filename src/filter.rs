//! The exclude globs that apply to every discovered path and historical blob.
use vstd::prelude::*;
use globset::GlobSet;
use crate::error::SizelintError;
use crate::git::HistoryBlob;
use crate::glob::{
    add_glob, any_glob_matches, build_glob_set, glob_parses, glob_set_builds, glob_set_is_match,
    glob_set_patterns, new_glob_builder,
};
use crate::rules::string_views;

verus! {

/// Paths matching any of a list of globs are left out.
pub struct PathFilter {
    excludes: GlobSet,
}

/// The first pattern of `ps` that does not parse as a glob.
pub open spec fn first_bad_glob(ps: Seq<Seq<char>>) -> int {
    choose|i: int|
        0 <= i < ps.len() && !glob_parses(#[trigger] ps[i]) && forall|j: int|
            0 <= j < i ==> glob_parses(#[trigger] ps[j])
}

/// The paths that no pattern of `ps` matches, in order.
pub open spec fn kept_paths(ps: Seq<Seq<char>>, paths: Seq<Seq<char>>) -> Seq<Seq<char>>
    decreases paths.len(),
{
    if paths.len() == 0 {
        paths
    } else if any_glob_matches(ps, paths.last()) {
        kept_paths(ps, paths.drop_last())
    } else {
        kept_paths(ps, paths.drop_last()).push(paths.last())
    }
}

/// The blobs whose path no pattern of `ps` matches, in order.
pub open spec fn kept_blobs(ps: Seq<Seq<char>>, blobs: Seq<HistoryBlob>) -> Seq<HistoryBlob>
    decreases blobs.len(),
{
    if blobs.len() == 0 {
        blobs
    } else if any_glob_matches(ps, blobs.last().path@) {
        kept_blobs(ps, blobs.drop_last())
    } else {
        kept_blobs(ps, blobs.drop_last()).push(blobs.last())
    }
}

impl PathFilter {
    /// The exclude globs, as matched.
    pub closed spec fn patterns(&self) -> Seq<Seq<char>> {
        glob_set_patterns(self.excludes)
    }

    /// A filter of the given globs, used as written.
    pub fn new(exclude_patterns: &Vec<String>) -> (r: Result<Self, SizelintError>)
        ensures
            r is Ok ==> r->Ok_0.patterns() == string_views(exclude_patterns@),
            ({
                let ps = string_views(exclude_patterns@);
                (exists|i: int| 0 <= i < ps.len() && !glob_parses(#[trigger] ps[i])) ==> (r is Err
                    && (r->Err_0 matches SizelintError::ConfigInvalidPattern { pattern, .. }
                    && pattern@ == ps[first_bad_glob(ps)]))
            }),
            ({
                let ps = string_views(exclude_patterns@);
                (forall|i: int| 0 <= i < ps.len() ==> glob_parses(#[trigger] ps[i])) ==> ((r is Ok
                    <==> glob_set_builds(ps)) && (r is Err ==> r->Err_0 is ConfigInvalid))
            }),
            exclude_patterns@.len() == 0 ==> r is Ok,
    {
        let ghost ps = string_views(exclude_patterns@);
        let mut b = new_glob_builder();
        let mut i: usize = 0;
        assert(ps.subrange(0, 0) =~= Seq::<Seq<char>>::empty());
        while i < exclude_patterns.len()
            invariant
                i <= exclude_patterns@.len(),
                ps == string_views(exclude_patterns@),
                crate::glob::builder_patterns(b) == ps.subrange(0, i as int),
                forall|j: int| 0 <= j < i ==> glob_parses(#[trigger] ps[j]),
            decreases exclude_patterns@.len() - i,
        {
            match add_glob(&mut b, exclude_patterns[i].as_str()) {
                Ok(()) => {},
                Err(source) => {
                    proof {
                        let k = first_bad_glob(ps);
                        assert(exists|k: int|
                            0 <= k < ps.len() && !glob_parses(#[trigger] ps[k]) && forall|j: int|
                                0 <= j < k ==> glob_parses(#[trigger] ps[j])) by {
                            assert(!glob_parses(ps[i as int]));
                        }
                        if k < i {
                            assert(glob_parses(ps[k]));
                        }
                        if k > i {
                            assert(glob_parses(ps[i as int]));
                        }
                    }
                    return Err(
                        SizelintError::config_invalid_pattern(exclude_patterns[i].clone(), source),
                    );
                },
            }
            i = i + 1;
            assert(ps.subrange(0, i as int) =~= ps.subrange(0, i - 1).push(ps[i - 1]));
        }
        assert(ps.subrange(0, exclude_patterns@.len() as int) =~= ps);
        match build_glob_set(&b) {
            Ok(set) => Ok(PathFilter { excludes: set }),
            Err(_) => Err(
                SizelintError::config_invalid(
                    String::from_str("exclude_patterns"),
                    String::from_str("globset_builder"),
                    String::from_str("Failed to build exclude patterns"),
                ),
            ),
        }
    }

    /// Whether some exclude glob matches `path`.
    pub fn is_excluded(&self, path: &str) -> (r: bool)
        ensures
            r == any_glob_matches(self.patterns(), path@),
    {
        glob_set_is_match(&self.excludes, path)
    }

    /// The paths that no exclude glob matches, in order.
    pub fn filter_paths(&self, paths: Vec<String>) -> (r: Vec<String>)
        ensures
            string_views(r@) == kept_paths(self.patterns(), string_views(paths@)),
    {
        let ghost all = string_views(paths@);
        let mut out: Vec<String> = Vec::new();
        let mut i: usize = 0;
        while i < paths.len()
            invariant
                i <= paths@.len(),
                all == string_views(paths@),
                string_views(out@) == kept_paths(self.patterns(), all.subrange(0, i as int)),
            decreases paths@.len() - i,
        {
            assert(all.subrange(0, i + 1).drop_last() =~= all.subrange(0, i as int));
            assert(all.subrange(0, i + 1).last() == paths@[i as int]@);
            let ghost before = out@;
            if !self.is_excluded(paths[i].as_str()) {
                out.push(paths[i].clone());
                assert(string_views(out@) =~= string_views(before).push(paths@[i as int]@));
            }
            i = i + 1;
        }
        assert(all.subrange(0, paths@.len() as int) =~= all);
        out
    }

    /// The blobs whose path no exclude glob matches, in order.
    pub fn filter_blobs(&self, blobs: Vec<HistoryBlob>) -> (r: Vec<HistoryBlob>)
        ensures
            r@ == kept_blobs(self.patterns(), blobs@),
    {
        let mut blobs = blobs;
        let ghost all = blobs@;
        let mut rev: Vec<HistoryBlob> = Vec::new();
        while blobs.len() > 0
            invariant
                all.len() >= blobs@.len(),
                blobs@ == all.subrange(0, blobs@.len() as int),
                rev@.reverse() == kept_suffix(self.patterns(), all, blobs@.len() as int),
            decreases blobs@.len(),
        {
            let ghost k = blobs@.len() as int;
            let b = blobs.pop().unwrap();
            assert(blobs@ =~= all.subrange(0, k - 1));
            assert(b == all[k - 1]);
            let ghost before = rev@;
            if !self.is_excluded(b.path.as_str()) {
                rev.push(b);
                assert(rev@.reverse() =~= seq![all[k - 1]] + before.reverse());
            }
        }
        let mut out: Vec<HistoryBlob> = Vec::new();
        while rev.len() > 0
            invariant
                out@ + rev@.reverse() == kept_suffix(self.patterns(), all, 0),
            decreases rev@.len(),
        {
            let ghost before = rev@;
            let b = rev.pop().unwrap();
            out.push(b);
            assert(out@ + rev@.reverse() =~= kept_suffix(self.patterns(), all, 0)) by {
                assert(before.reverse() =~= seq![b] + rev@.reverse());
            }
        }
        proof {
            lemma_kept_suffix_whole(self.patterns(), all);
            assert(out@ =~= kept_suffix(self.patterns(), all, 0));
        }
        out
    }
}

/// The blobs from index `k` on whose path no pattern matches, in order.
pub open spec fn kept_suffix(ps: Seq<Seq<char>>, blobs: Seq<HistoryBlob>, k: int) -> Seq<HistoryBlob>
    decreases blobs.len() - k,
{
    if k >= blobs.len() || k < 0 {
        Seq::empty()
    } else if any_glob_matches(ps, blobs[k].path@) {
        kept_suffix(ps, blobs, k + 1)
    } else {
        seq![blobs[k]] + kept_suffix(ps, blobs, k + 1)
    }
}

proof fn lemma_kept_suffix_whole(ps: Seq<Seq<char>>, blobs: Seq<HistoryBlob>)
    ensures
        kept_suffix(ps, blobs, 0) == kept_blobs(ps, blobs),
    decreases blobs.len(),
{
    if blobs.len() > 0 {
        let d = blobs.drop_last();
        lemma_kept_suffix_whole(ps, d);
        lemma_kept_suffix_drop_last(ps, blobs, 0);
    }
}

proof fn lemma_kept_suffix_drop_last(ps: Seq<Seq<char>>, blobs: Seq<HistoryBlob>, k: int)
    requires
        blobs.len() > 0,
        0 <= k < blobs.len(),
    ensures
        kept_suffix(ps, blobs, k) == kept_suffix(ps, blobs.drop_last(), k) + (if any_glob_matches(
            ps,
            blobs.last().path@,
        ) {
            Seq::<HistoryBlob>::empty()
        } else {
            seq![blobs.last()]
        }),
    decreases blobs.len() - k,
{
    let d = blobs.drop_last();
    let tail = if any_glob_matches(ps, blobs.last().path@) {
        Seq::<HistoryBlob>::empty()
    } else {
        seq![blobs.last()]
    };
    if k == blobs.len() - 1 {
        assert(kept_suffix(ps, d, k) == Seq::<HistoryBlob>::empty());
        assert(kept_suffix(ps, blobs, k + 1) == Seq::<HistoryBlob>::empty());
        assert(kept_suffix(ps, blobs, k) =~= tail);
    } else {
        lemma_kept_suffix_drop_last(ps, blobs, k + 1);
        assert(d[k] == blobs[k]);
        if any_glob_matches(ps, blobs[k].path@) {
        } else {
            assert(seq![blobs[k]] + (kept_suffix(ps, d, k + 1) + tail) =~= (seq![blobs[k]]
                + kept_suffix(ps, d, k + 1)) + tail);
        }
    }
}

} // verus!
