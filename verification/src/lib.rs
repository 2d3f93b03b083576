//! Sanitize messy filenames through a configurable filter pipeline.
//!
//! A [`Detox`] applies a [`Sequence`] of [`Filter`]s to a name's bytes. The
//! planner computes collision-safe renames for a batch of paths; the caller
//! lists the paths and performs the renames.

use vstd::prelude::*;
use vstd::utf8::{decode_utf8_encode_utf8, encode_utf8, valid_utf8};

pub mod config;
pub mod error;
pub mod filter;
pub mod lossy;
pub mod mode;
pub mod output;
pub mod planner;
pub mod sequence;
pub mod session;
pub mod strict;
pub mod tables;
pub mod text;

pub use error::DetoxError;
pub use filter::Filter;
pub use planner::{NamedPath, RenamePlanEntry};
pub use sequence::Sequence;

use lossy::{from_utf8_lossy, utf8_lossy};
use planner::{
    clean_count, count_clean, lemma_plan_counts, plan_directory, plan_fold, plan_views, path_set, path_views,
};

verus! {

/// Configured detox pipeline runner. Construct via [`DetoxBuilder`].
#[non_exhaustive]
#[derive(Debug, Clone)]
pub struct Detox {
    sequence: Sequence,
    /// Verbose: emit one rename line per change.
    pub verbose: bool,
    /// Dry-run: plan and report renames without issuing any rename.
    pub dry_run: bool,
    /// Recursive: descend into directories depth-first, leaves first.
    pub recursive: bool,
    /// Maximum collision-resolution suffix attempts before giving up.
    pub collision_cap: u32,
}

impl Detox {
    /// The sequence this detox applies.
    pub closed spec fn active(&self) -> Sequence {
        self.sequence
    }

    /// The (verbose, dry_run, recursive, collision_cap) settings.
    pub closed spec fn settings(&self) -> (bool, bool, bool, u32) {
        (self.verbose, self.dry_run, self.recursive, self.collision_cap)
    }

    /// Sanitize one UTF-8 string, returning a UTF-8 string.
    ///
    /// The output bytes are decoded lossily: where the sequence produced
    /// invalid UTF-8 (a lone `%C3` decoded by `uncgi`, say) U+FFFD stands in
    /// its place. Where the output bytes are valid UTF-8, the returned
    /// string's bytes are exactly those of [`Detox::sanitize_bytes`].
    pub fn sanitize(&self, input: &str) -> (r: String)
        ensures
            r@ == utf8_lossy(self.active().output(encode_utf8(input@))),
            valid_utf8(self.active().output(encode_utf8(input@))) ==> encode_utf8(r@)
                == self.active().output(encode_utf8(input@)),
    {
        let bytes = self.sanitize_bytes(input.as_bytes());
        let r = from_utf8_lossy(bytes.as_slice());
        proof {
            if valid_utf8(bytes@) {
                decode_utf8_encode_utf8(bytes@);
            }
        }
        r
    }

    /// Apply the configured sequence to `input` and return the transformed
    /// bytes.
    pub fn sanitize_bytes(&self, input: &[u8]) -> (r: Vec<u8>)
        ensures
            r@ == self.active().output(input@),
    {
        self.sequence.apply(input)
    }

    /// The planned renames of `entries`, given the paths that already exist
    /// beside them. Reads and changes nothing; when some target finds no free
    /// name within the collision cap, the plan is empty.
    pub fn plan(&self, entries: &Vec<NamedPath>, existing: &Vec<NamedPath>) -> (r: Vec<RenamePlanEntry>)
        ensures
            match plan_fold(path_views(entries@), path_set(existing@), self.active(), self.settings().3 as nat) {
                Ok((_, p)) => plan_views(r@) == p && r@.len() + clean_count(path_views(entries@), self.active())
                    == entries@.len(),
                Err(_) => r@.len() == 0,
            },
    {
        proof {
            lemma_plan_counts(path_views(entries@), path_set(existing@), self.sequence, self.collision_cap as nat);
        }
        match plan_directory(entries, existing, &self.sequence, self.collision_cap) {
            Ok(plan) => plan,
            Err(_) => Vec::new(),
        }
    }

    /// How many of `entries` are already clean: the sequence leaves their
    /// names unchanged, so planning skips them.
    pub fn clean_entries(&self, entries: &Vec<NamedPath>) -> (n: usize)
        ensures
            n == clean_count(path_views(entries@), self.active()),
    {
        count_clean(entries, &self.sequence)
    }

    /// Start executing a plan of `planned` entries, beside `clean` entries
    /// that planning skipped as already clean: the report before any rename,
    /// and whether renames are to be issued. The clean entries count as
    /// skipped; in dry-run every planned entry does too, and nothing is
    /// renamed.
    pub fn execute(&self, planned: usize, clean: usize) -> (r: (DetoxReport, bool))
        requires
            planned + clean <= usize::MAX,
        ensures
            r.0.planned == planned,
            r.0.renamed == 0,
            r.0.errored == 0,
            r.0.skipped == clean + (if self.settings().1 { planned } else { 0 }),
            r.1 == !self.settings().1,
    {
        let mut report = DetoxReport { planned, renamed: 0, skipped: clean, errored: 0 };
        if self.dry_run {
            report.skipped = clean + planned;
            return (report, false);
        }
        (report, true)
    }
}

/// Summary report of executing a plan.
#[non_exhaustive]
#[derive(Debug, Clone, Default, PartialEq, Eq)]
pub struct DetoxReport {
    /// Number of entries the planner produced.
    pub planned: usize,
    /// Number of entries successfully renamed.
    pub renamed: usize,
    /// Number of entries skipped: those already clean, and in dry-run the
    /// planned ones too.
    pub skipped: usize,
    /// Number of entries that errored mid-execution.
    pub errored: usize,
}

impl DetoxReport {
    /// Record the outcome of one rename. Returns whether execution goes on
    /// with the next entry: it stops at the first failure.
    pub fn record_rename(&mut self, succeeded: bool) -> (go_on: bool)
        requires
            old(self).renamed + old(self).errored < old(self).planned,
        ensures
            go_on == succeeded,
            final(self).planned == old(self).planned,
            final(self).skipped == old(self).skipped,
            final(self).renamed == old(self).renamed + (if succeeded { 1int } else { 0 }),
            final(self).errored == old(self).errored + (if succeeded { 0int } else { 1 }),
    {
        if succeeded {
            self.renamed = self.renamed + 1;
        } else {
            self.errored = self.errored + 1;
        }
        succeeded
    }
}

/// Builder for [`Detox`]. Every setting has a default; `build()` cannot fail.
#[derive(Debug, Clone)]
pub struct DetoxBuilder {
    sequence: Sequence,
    verbose: bool,
    dry_run: bool,
    recursive: bool,
    collision_cap: u32,
}

impl DetoxBuilder {
    /// The sequence the builder holds.
    pub closed spec fn sequence_of(&self) -> Sequence {
        self.sequence
    }

    /// The (verbose, dry_run, recursive, collision_cap) settings.
    pub closed spec fn settings(&self) -> (bool, bool, bool, u32) {
        (self.verbose, self.dry_run, self.recursive, self.collision_cap)
    }

    /// Fresh builder: the built-in `default` sequence, all flags off, and a
    /// collision cap of 1000.
    pub fn new() -> (b: Self)
        ensures
            b.sequence_of().is_builtin_default(),
            b.settings() == (false, false, false, 1000u32),
    {
        DetoxBuilder {
            sequence: Sequence::default(),
            verbose: false,
            dry_run: false,
            recursive: false,
            collision_cap: 1000,
        }
    }

    /// Set the active sequence.
    pub fn sequence(self, s: Sequence) -> (b: Self)
        ensures
            b.sequence_of() == s,
            b.settings() == self.settings(),
    {
        let mut me = self;
        me.sequence = s;
        me
    }

    /// Set the verbose flag.
    pub fn verbose(self, on: bool) -> (b: Self)
        ensures
            b.sequence_of() == self.sequence_of(),
            b.settings() == (on, self.settings().1, self.settings().2, self.settings().3),
    {
        let mut me = self;
        me.verbose = on;
        me
    }

    /// Set the dry-run flag.
    pub fn dry_run(self, on: bool) -> (b: Self)
        ensures
            b.sequence_of() == self.sequence_of(),
            b.settings() == (self.settings().0, on, self.settings().2, self.settings().3),
    {
        let mut me = self;
        me.dry_run = on;
        me
    }

    /// Set the recursive flag.
    pub fn recursive(self, on: bool) -> (b: Self)
        ensures
            b.sequence_of() == self.sequence_of(),
            b.settings() == (self.settings().0, self.settings().1, on, self.settings().3),
    {
        let mut me = self;
        me.recursive = on;
        me
    }

    /// Set the collision-resolution attempt cap.
    pub fn collision_cap(self, cap: u32) -> (b: Self)
        ensures
            b.sequence_of() == self.sequence_of(),
            b.settings() == (self.settings().0, self.settings().1, self.settings().2, cap),
    {
        let mut me = self;
        me.collision_cap = cap;
        me
    }

    /// Build the configured [`Detox`].
    pub fn build(self) -> (d: Detox)
        ensures
            d.active() == self.sequence_of(),
            d.settings() == self.settings(),
    {
        Detox {
            sequence: self.sequence,
            verbose: self.verbose,
            dry_run: self.dry_run,
            recursive: self.recursive,
            collision_cap: self.collision_cap,
        }
    }
}

impl Default for DetoxBuilder {
    /// The same builder as [`DetoxBuilder::new`].
    fn default() -> (b: Self)
        ensures
            b.sequence_of().is_builtin_default(),
            b.settings() == (false, false, false, 1000u32),
    {
        Self::new()
    }
}

} // verus!
