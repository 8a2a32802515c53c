//! Scan configuration and the decision core of the single-use batch reader.
//!
//! The scan itself — file decoding, pruning, asynchronous scheduling — runs
//! outside the library.  What is verified here is what the reader decides:
//! when a scan may start, how every compiled filter relates to its predicate
//! string, and how the reader's lifecycle state moves on each outcome the
//! scan hands back.  The driving loop feeds those outcomes in; because the
//! transition functions take the session exclusively, at most one pull can
//! be accounted against a session at a time.

use vstd::prelude::*;
use crate::expr::{Expression, ExprV};
use crate::filter::{spec_parse, FilterError, Parser};
use crate::schema::Schema;

verus! {

/// Why a reader operation failed.
#[derive(Clone, Copy, Debug, PartialEq, Eq, Structural)]
pub enum ReaderError {
    /// The configured file list is empty: a reader over zero files is a
    /// caller contract violation, rejected before any I/O.
    NoFiles,
    /// The underlying scan reported an unrecoverable error.
    Scan,
}

/// Everything one scan consumes, built once by the caller and not mutated
/// after the session starts.
pub struct ScanConfig {
    pub files: Vec<String>,
    pub schema: Schema,
    pub primary_keys: Vec<String>,
    pub batch_size: usize,
    pub thread_num: usize,
    pub filter_strs: Vec<String>,
    pub object_store_options: Vec<(String, String)>,
}

impl ScanConfig {
    /// A configuration over `schema` with no files, no filters and defaults
    /// of one worker and 8192 rows per batch.
    pub fn new(schema: Schema) -> (r: ScanConfig)
        ensures
            r.schema == schema,
            r.files@.len() == 0,
            r.primary_keys@.len() == 0,
            r.batch_size == 8192,
            r.thread_num == 1,
            r.filter_strs@.len() == 0,
            r.object_store_options@.len() == 0,
    {
        ScanConfig {
            files: Vec::new(),
            schema,
            primary_keys: Vec::new(),
            batch_size: 8192,
            thread_num: 1,
            filter_strs: Vec::new(),
            object_store_options: Vec::new(),
        }
    }

    /// A scan may start exactly when at least one file is configured.
    pub open spec fn startable(self) -> bool {
        self.files@.len() > 0
    }

    /// Rejects an empty file list before any I/O begins.
    pub fn check_startable(&self) -> (r: Result<(), ReaderError>)
        ensures
            r is Ok <==> self.startable(),
            !self.startable() ==> r == Err::<(), ReaderError>(ReaderError::NoFiles),
    {
        if self.files.len() == 0 {
            Err(ReaderError::NoFiles)
        } else {
            Ok(())
        }
    }

    /// Compiles every configured predicate string against the configured
    /// schema, in order, stopping at the first failure.
    pub fn compile_filters(&self) -> (r: Result<Vec<Expression>, FilterError>)
        ensures
            match r {
                Ok(v) => v@.len() == self.filter_strs@.len() && (forall|i: int|
                    0 <= i < v@.len() ==> spec_parse(self.filter_strs@[i]@, self.schema.fields@)
                        == Ok::<ExprV, FilterError>(v@[i]@)),
                Err(e) => exists|i: int|
                    0 <= i < self.filter_strs@.len() && spec_parse(
                        self.filter_strs@[i]@,
                        self.schema.fields@,
                    ) == Err::<ExprV, FilterError>(e),
            },
    {
        let mut out: Vec<Expression> = Vec::new();
        let n = self.filter_strs.len();
        let mut i: usize = 0;
        while i < n
            invariant
                0 <= i <= n,
                n == self.filter_strs@.len(),
                out@.len() == i,
                forall|j: int|
                    0 <= j < i ==> spec_parse(self.filter_strs@[j]@, self.schema.fields@)
                        == Ok::<ExprV, FilterError>(out@[j]@),
            decreases n - i,
        {
            let s = self.filter_strs[i].clone();
            match Parser::parse(s, &self.schema) {
                Ok(e) => {
                    out.push(e);
                },
                Err(er) => {
                    return Err(er);
                },
            }
            i = i + 1;
        }
        Ok(out)
    }
}

/// Lifecycle of a single-use reader: created unstarted, running after a
/// successful start, exhausted when the scan yields no further batch, failed
/// on any unrecoverable error.  There is no way back to unstarted.
#[derive(Clone, Copy, Debug, PartialEq, Eq, Structural)]
pub enum ReaderState {
    Unstarted,
    Running,
    Exhausted,
    Failed,
}

/// What one pull of the underlying scan produced: a decoded batch with its
/// row count, the end of the stream, or an unrecoverable error.
#[derive(Clone, Copy, Debug, PartialEq, Eq, Structural)]
pub enum PullOutcome {
    Batch(usize),
    Finished,
    Error,
}

/// The lifecycle transition on one pull outcome; states other than running
/// absorb every outcome.
pub open spec fn step(st: ReaderState, o: PullOutcome) -> ReaderState {
    match st {
        ReaderState::Running => match o {
            PullOutcome::Batch(_) => ReaderState::Running,
            PullOutcome::Finished => ReaderState::Exhausted,
            PullOutcome::Error => ReaderState::Failed,
        },
        _ => st,
    }
}

/// Law: a reader is single-use.  No pull outcome returns a session to the
/// unstarted state, and the exhausted and failed states are terminal.
pub proof fn lemma_reader_single_use(st: ReaderState, o: PullOutcome)
    ensures
        st is Exhausted ==> step(st, o) is Exhausted,
        st is Failed ==> step(st, o) is Failed,
        !(st is Unstarted) ==> !(step(st, o) is Unstarted),
{
}

/// Decision core of the reader bridge: the lifecycle state and the schema
/// captured at start.  The driving loop performs the I/O and feeds the
/// outcomes in; both transition functions take the session exclusively, so a
/// second pull cannot be accounted before the first one's outcome is.
pub struct ReaderSession {
    state: ReaderState,
    schema: Option<Schema>,
}

impl ReaderSession {
    /// Abstract lifecycle state of the session.
    pub closed spec fn spec_state(self) -> ReaderState {
        self.state
    }

    /// Abstract schema captured at start.
    pub closed spec fn spec_schema(self) -> Option<Schema> {
        self.schema
    }

    /// A fresh, unstarted session with no schema.
    pub fn new() -> (r: ReaderSession)
        ensures
            r.spec_state() is Unstarted,
            r.spec_schema() is None,
    {
        ReaderSession { state: ReaderState::Unstarted, schema: None }
    }

    /// Accounts the outcome of driving the scan's start: on success the
    /// session runs and keeps the resolved schema, on failure it is failed
    /// for good and the error is handed back.
    pub fn on_start(&mut self, outcome: Result<Schema, ReaderError>) -> (r: Result<
        (),
        ReaderError,
    >)
        requires
            old(self).spec_state() is Unstarted,
        ensures
            outcome matches Ok(sch) ==> final(self).spec_state() is Running
                && final(self).spec_schema() == Some(sch) && r is Ok,
            outcome matches Err(e) ==> final(self).spec_state() is Failed
                && final(self).spec_schema() is None && r == Err::<(), ReaderError>(e),
    {
        match outcome {
            Ok(sch) => {
                self.state = ReaderState::Running;
                self.schema = Some(sch);
                Ok(())
            },
            Err(e) => {
                self.state = ReaderState::Failed;
                self.schema = None;
                Err(e)
            },
        }
    }

    /// Accounts the outcome of one pull; the schema resolved at start is
    /// kept whatever comes back.
    pub fn on_pull(&mut self, outcome: &PullOutcome)
        requires
            old(self).spec_state() is Running,
        ensures
            final(self).spec_state() == step(old(self).spec_state(), *outcome),
            final(self).spec_schema() == old(self).spec_schema(),
    {
        match outcome {
            PullOutcome::Batch(_) => {},
            PullOutcome::Finished => {
                self.state = ReaderState::Exhausted;
            },
            PullOutcome::Error => {
                self.state = ReaderState::Failed;
            },
        }
    }

    /// True exactly when a pull may be issued.
    pub fn can_pull(&self) -> (r: bool)
        ensures
            r == (self.spec_state() is Running),
    {
        match self.state {
            ReaderState::Running => true,
            _ => false,
        }
    }

    /// The current lifecycle state.
    pub fn state(&self) -> (r: ReaderState)
        ensures
            r == self.spec_state(),
    {
        self.state
    }

    /// The schema resolved at start, or nothing before a successful start.
    pub fn get_schema(&self) -> (r: Option<&Schema>)
        ensures
            match r {
                Some(s) => self.spec_schema() == Some(*s),
                None => self.spec_schema() is None,
            },
    {
        match &self.schema {
            Some(s) => Some(s),
            None => None,
        }
    }
}

} // verus!
