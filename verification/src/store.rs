//! Applying a plan to the index store: which request goes to the store
//! next, given how the last one ended. The store itself is driven by the
//! caller, one request at a time.

use crate::entry::{views, ItemFS, ItemView};
use crate::reconcile::{texts, ReconcilePlan};
use crate::row::{row_of, to_row, IndexRow, RowView};
use vstd::prelude::*;
use vstd::string::StringExecFns;

verus! {

/// Error text where the store could not be opened.
pub const CONNECT_FAILED: &'static str = "Failed acquiring connection.";

/// Error text where no transaction could be begun.
pub const BEGIN_FAILED: &'static str = "Failed acquiring transaction.";

/// Why an update of the index failed. In every case the index is left as
/// it was.
#[derive(Debug)]
pub enum StoreError {
    /// The store could not be opened.
    Connection,
    /// No transaction could be begun.
    Transaction,
    /// A delete or an insert failed; the text is the store's.
    Write(String),
    /// The commit failed; the text is the store's.
    Commit(String),
}

/// A store error as mathematical values.
pub enum StoreErrorView {
    Connection,
    Transaction,
    Write(Seq<char>),
    Commit(Seq<char>),
}

impl View for StoreError {
    type V = StoreErrorView;

    open spec fn view(&self) -> StoreErrorView {
        match self {
            StoreError::Connection => StoreErrorView::Connection,
            StoreError::Transaction => StoreErrorView::Transaction,
            StoreError::Write(reason) => StoreErrorView::Write(reason@),
            StoreError::Commit(reason) => StoreErrorView::Commit(reason@),
        }
    }
}

/// The text of a store error: a fixed text where the store could not be
/// opened or no transaction begun, else the store's own words.
pub open spec fn store_error_text(error: StoreErrorView) -> Seq<char> {
    match error {
        StoreErrorView::Connection => CONNECT_FAILED@,
        StoreErrorView::Transaction => BEGIN_FAILED@,
        StoreErrorView::Write(reason) => reason,
        StoreErrorView::Commit(reason) => reason,
    }
}

impl StoreError {
    /// The error as a text for the user.
    pub fn to_string(&self) -> (res: String)
        ensures
            res@ == store_error_text(self@),
    {
        match self {
            StoreError::Connection => String::from_str(CONNECT_FAILED),
            StoreError::Transaction => String::from_str(BEGIN_FAILED),
            StoreError::Write(reason) => reason.clone(),
            StoreError::Commit(reason) => reason.clone(),
        }
    }
}

impl Clone for StoreError {
    fn clone(&self) -> (res: Self)
        ensures
            res@ == self@,
    {
        match self {
            StoreError::Connection => StoreError::Connection,
            StoreError::Transaction => StoreError::Transaction,
            StoreError::Write(reason) => StoreError::Write(reason.clone()),
            StoreError::Commit(reason) => StoreError::Commit(reason.clone()),
        }
    }
}

/// What the caller is to ask of the store next.
#[derive(Debug)]
pub enum StoreRequest {
    /// Open the store.
    Connect,
    /// Begin a transaction.
    Begin,
    /// Delete, within the transaction, the record stored for this path.
    Delete(String),
    /// Insert this row within the transaction.
    Insert(IndexRow),
    /// Commit the transaction.
    Commit,
    /// Give up a transaction that was not committed, if there is one, and
    /// close the store.
    Close,
    /// Nothing is left to do; this is how the update ended.
    Finish(Result<(), StoreError>),
}

/// A request as mathematical values.
pub enum RequestView {
    Connect,
    Begin,
    Delete(Seq<char>),
    Insert(RowView),
    Commit,
    Close,
    Finish(Result<(), StoreErrorView>),
}

/// An outcome as mathematical values.
pub open spec fn outcome_view(outcome: Result<(), StoreError>) -> Result<(), StoreErrorView> {
    match outcome {
        Ok(_) => Ok(()),
        Err(error) => Err(error@),
    }
}

impl View for StoreRequest {
    type V = RequestView;

    open spec fn view(&self) -> RequestView {
        match self {
            StoreRequest::Connect => RequestView::Connect,
            StoreRequest::Begin => RequestView::Begin,
            StoreRequest::Delete(path) => RequestView::Delete(path@),
            StoreRequest::Insert(row) => RequestView::Insert(row@),
            StoreRequest::Commit => RequestView::Commit,
            StoreRequest::Close => RequestView::Close,
            StoreRequest::Finish(outcome) => RequestView::Finish(outcome_view(*outcome)),
        }
    }
}

/// How the store answered the last request.
#[derive(Debug)]
pub enum StoreReply {
    /// The request was carried out.
    Done,
    /// The request failed; the text says why.
    Failed(String),
}

/// A reply as mathematical values.
pub enum ReplyView {
    Done,
    Failed(Seq<char>),
}

impl View for StoreReply {
    type V = ReplyView;

    open spec fn view(&self) -> ReplyView {
        match self {
            StoreReply::Done => ReplyView::Done,
            StoreReply::Failed(reason) => ReplyView::Failed(reason@),
        }
    }
}

/// The request that an update is waiting on.
#[derive(Clone, Copy, Debug, PartialEq, Eq, Structural)]
pub enum Stage {
    Connecting,
    Beginning,
    /// Deleting the path at this place of the plan's deletes.
    Deleting(usize),
    /// Inserting the entry at this place of the plan's inserts.
    Inserting(usize),
    Committing,
    Closing,
    Finished,
}

/// An update under way, as mathematical values.
pub struct UpdateView {
    pub deletes: Seq<Seq<char>>,
    pub inserts: Seq<ItemView>,
    pub stage: Stage,
    pub outcome: Result<(), StoreErrorView>,
}

/// An update of the index under way: the plan being applied, the request it
/// waits on, and how it will end as far as that is settled.
pub struct IndexUpdate {
    deletes: Vec<String>,
    inserts: Vec<ItemFS>,
    stage: Stage,
    outcome: Result<(), StoreError>,
}

impl View for IndexUpdate {
    type V = UpdateView;

    closed spec fn view(&self) -> UpdateView {
        UpdateView {
            deletes: texts(self.deletes@),
            inserts: views(self.inserts@),
            stage: self.stage,
            outcome: outcome_view(self.outcome),
        }
    }
}

/// The write that follows once `deleted` deletes and `inserted` inserts are
/// through: the next delete, after the deletes the next insert, after
/// those the commit.
pub open spec fn next_write(update: UpdateView, deleted: int, inserted: int) -> (
    UpdateView,
    RequestView,
) {
    if 0 <= deleted < update.deletes.len() {
        (
            UpdateView { stage: Stage::Deleting(deleted as usize), ..update },
            RequestView::Delete(update.deletes[deleted]),
        )
    } else if 0 <= inserted < update.inserts.len() {
        (
            UpdateView { stage: Stage::Inserting(inserted as usize), ..update },
            RequestView::Insert(row_of(update.inserts[inserted])),
        )
    } else {
        (UpdateView { stage: Stage::Committing, ..update }, RequestView::Commit)
    }
}

/// The update gives up: it closes the store and will end with `error`.
pub open spec fn give_up(update: UpdateView, error: StoreErrorView) -> (UpdateView, RequestView) {
    (UpdateView { stage: Stage::Closing, outcome: Err(error), ..update }, RequestView::Close)
}

/// The step of an update: from where it stands and the store's reply to
/// where it stands next and what it asks of the store.
///
/// A refused connection ends the update at once. Any later failure closes
/// the store without a commit, so that nothing of the plan is left written,
/// and the update ends with the error of the stage at which it failed.
/// After a failure no further write is asked for.
pub open spec fn step(update: UpdateView, reply: ReplyView) -> (UpdateView, RequestView) {
    match update.stage {
        Stage::Connecting => match reply {
            ReplyView::Done => (
                UpdateView { stage: Stage::Beginning, ..update },
                RequestView::Begin,
            ),
            ReplyView::Failed(_) => (
                UpdateView {
                    stage: Stage::Finished,
                    outcome: Err(StoreErrorView::Connection),
                    ..update
                },
                RequestView::Finish(Err(StoreErrorView::Connection)),
            ),
        },
        Stage::Beginning => match reply {
            ReplyView::Done => next_write(update, 0, 0),
            ReplyView::Failed(_) => give_up(update, StoreErrorView::Transaction),
        },
        Stage::Deleting(place) => match reply {
            ReplyView::Done => next_write(update, place + 1, 0),
            ReplyView::Failed(reason) => give_up(update, StoreErrorView::Write(reason)),
        },
        Stage::Inserting(place) => match reply {
            ReplyView::Done => next_write(update, update.deletes.len() as int, place + 1),
            ReplyView::Failed(reason) => give_up(update, StoreErrorView::Write(reason)),
        },
        Stage::Committing => match reply {
            ReplyView::Done => (
                UpdateView { stage: Stage::Closing, outcome: Ok(()), ..update },
                RequestView::Close,
            ),
            ReplyView::Failed(reason) => give_up(update, StoreErrorView::Commit(reason)),
        },
        Stage::Closing => (
            UpdateView { stage: Stage::Finished, ..update },
            RequestView::Finish(update.outcome),
        ),
        Stage::Finished => (update, RequestView::Finish(update.outcome)),
    }
}

/// An update that has just begun: it waits on the connection.
pub open spec fn started(deletes: Seq<Seq<char>>, inserts: Seq<ItemView>) -> UpdateView {
    UpdateView { deletes, inserts, stage: Stage::Connecting, outcome: Ok(()) }
}

/// The requests that follow while the store carries out every request,
/// `steps` of them.
pub open spec fn run_all_done(update: UpdateView, steps: nat) -> Seq<RequestView>
    decreases steps,
{
    if steps == 0 {
        Seq::empty()
    } else {
        let next = step(update, ReplyView::Done);
        seq![next.1] + run_all_done(next.0, (steps - 1) as nat)
    }
}

/// The writes that are left once `deleted` deletes and `inserted` inserts
/// are through, and what ends the update after them.
pub open spec fn rest_of_script(
    deletes: Seq<Seq<char>>,
    inserts: Seq<ItemView>,
    deleted: int,
    inserted: int,
) -> Seq<RequestView> {
    deletes.skip(deleted).map_values(|path: Seq<char>| RequestView::Delete(path)) + inserts.skip(
        inserted,
    ).map_values(|item: ItemView| RequestView::Insert(row_of(item))) + seq![
        RequestView::Commit,
        RequestView::Close,
        RequestView::Finish(Ok(())),
    ]
}

/// All that a successful update asks of the store once it is connected:
/// one transaction that holds every delete, then every insert, and is
/// committed before the store is closed.
pub open spec fn full_script(deletes: Seq<Seq<char>>, inserts: Seq<ItemView>) -> Seq<RequestView> {
    seq![RequestView::Begin] + rest_of_script(deletes, inserts, 0, 0)
}

proof fn lemma_run_from_write(update: UpdateView, deleted: int, inserted: int)
    requires
        update.outcome == Ok::<(), StoreErrorView>(()),
        update.deletes.len() <= usize::MAX,
        update.inserts.len() <= usize::MAX,
        0 <= deleted <= update.deletes.len(),
        0 <= inserted <= update.inserts.len(),
        deleted < update.deletes.len() ==> inserted == 0,
    ensures
        ({
            let next = next_write(update, deleted, inserted);
            seq![next.1] + run_all_done(
                next.0,
                (update.deletes.len() - deleted + update.inserts.len() - inserted + 2) as nat,
            ) == rest_of_script(update.deletes, update.inserts, deleted, inserted)
        }),
    decreases update.deletes.len() - deleted + update.inserts.len() - inserted,
{
    let deletes = update.deletes;
    let inserts = update.inserts;
    let next = next_write(update, deleted, inserted);
    let steps = (deletes.len() - deleted + inserts.len() - inserted + 2) as nat;
    let ran = seq![next.1] + run_all_done(next.0, steps);
    let script = rest_of_script(deletes, inserts, deleted, inserted);
    if deleted < deletes.len() {
        lemma_run_from_write(next.0, deleted + 1, 0);
        assert(step(next.0, ReplyView::Done) == next_write(next.0, deleted + 1, 0));
        assert(deletes.skip(deleted) =~= seq![deletes[deleted]] + deletes.skip(deleted + 1));
        assert(ran =~= script);
    } else if inserted < inserts.len() {
        lemma_run_from_write(next.0, deleted, inserted + 1);
        assert(step(next.0, ReplyView::Done) == next_write(next.0, deleted, inserted + 1));
        assert(inserts.skip(inserted) =~= seq![inserts[inserted]] + inserts.skip(inserted + 1));
        assert(ran =~= script);
    } else {
        reveal_with_fuel(run_all_done, 3);
        assert(ran =~= script);
    }
}

/// The successful run: where the store carries out every request, the
/// update asks, after the connection, exactly for `full_script`: the
/// deletes of the plan in order, then its inserts in order, within one
/// transaction that is committed, and it ends well.
pub proof fn lemma_successful_run(deletes: Seq<Seq<char>>, inserts: Seq<ItemView>)
    requires
        deletes.len() <= usize::MAX,
        inserts.len() <= usize::MAX,
    ensures
        run_all_done(started(deletes, inserts), full_script(deletes, inserts).len()) == full_script(
            deletes,
            inserts,
        ),
{
    let first = step(started(deletes, inserts), ReplyView::Done);
    lemma_run_from_write(first.0, 0, 0);
    reveal_with_fuel(run_all_done, 3);
    assert(deletes.skip(0) =~= deletes);
    assert(inserts.skip(0) =~= inserts);
    let steps = full_script(deletes, inserts).len();
    assert(steps == deletes.len() + inserts.len() + 4);
    assert(run_all_done(started(deletes, inserts), steps) =~= full_script(deletes, inserts));
}

/// The error with which an update ends after a failure at its stage.
pub open spec fn failure_at(stage: Stage, reason: Seq<char>) -> StoreErrorView {
    match stage {
        Stage::Connecting => StoreErrorView::Connection,
        Stage::Beginning => StoreErrorView::Transaction,
        Stage::Committing => StoreErrorView::Commit(reason),
        _ => StoreErrorView::Write(reason),
    }
}

/// A failure is never absorbed: once the store has failed a request of the
/// transaction, the update asks for no further write. It closes the store
/// without a commit and ends with the error, whatever the store replies to
/// the closing.
pub proof fn lemma_failure_ends_writes(update: UpdateView, reason: Seq<char>, later: ReplyView)
    requires
        update.stage is Beginning || update.stage is Deleting || update.stage is Inserting
            || update.stage is Committing,
    ensures
        step(update, ReplyView::Failed(reason)).1 == RequestView::Close,
        step(step(update, ReplyView::Failed(reason)).0, later).1 == RequestView::Finish(
            Err(failure_at(update.stage, reason)),
        ),
        step(step(update, ReplyView::Failed(reason)).0, later).0.stage == Stage::Finished,
{
}

/// An update that has ended stays ended and keeps its outcome.
pub proof fn lemma_finished_stays(update: UpdateView, reply: ReplyView)
    requires
        update.stage == Stage::Finished,
    ensures
        step(update, reply) == (update, RequestView::Finish(update.outcome)),
{
}

fn copy_outcome(outcome: &Result<(), StoreError>) -> (res: Result<(), StoreError>)
    ensures
        outcome_view(res) == outcome_view(*outcome),
{
    match outcome {
        Ok(_) => Ok(()),
        Err(error) => Err(error.clone()),
    }
}

impl IndexUpdate {
    #[verifier::type_invariant]
    spec fn in_range(self) -> bool {
        match self.stage {
            Stage::Deleting(place) => place < self.deletes@.len(),
            Stage::Inserting(place) => place < self.inserts@.len(),
            _ => true,
        }
    }

    /// Begins the update that applies `plan`: the first request is to open
    /// the store.
    pub fn start(plan: ReconcilePlan) -> (res: (IndexUpdate, StoreRequest))
        ensures
            res.0@ == (UpdateView {
                deletes: texts(plan.deletes@),
                inserts: views(plan.inserts@),
                stage: Stage::Connecting,
                outcome: Ok(()),
            }),
            res.1@ == RequestView::Connect,
    {
        let update = IndexUpdate {
            deletes: plan.deletes,
            inserts: plan.inserts,
            stage: Stage::Connecting,
            outcome: Ok(()),
        };
        (update, StoreRequest::Connect)
    }

    /// The request the update waits on.
    pub fn stage(&self) -> (res: Stage)
        ensures
            res == self@.stage,
    {
        self.stage
    }

    /// Whether the update has ended.
    pub fn is_finished(&self) -> (res: bool)
        ensures
            res == (self@.stage == Stage::Finished),
    {
        self.stage == Stage::Finished
    }

    fn write_after(self, deleted: usize, inserted: usize) -> (res: (IndexUpdate, StoreRequest))
        ensures
            (res.0@, res.1@) == next_write(self@, deleted as int, inserted as int),
    {
        if deleted < self.deletes.len() {
            let path = self.deletes[deleted].clone();
            let next = IndexUpdate {
                deletes: self.deletes,
                inserts: self.inserts,
                stage: Stage::Deleting(deleted),
                outcome: self.outcome,
            };
            (next, StoreRequest::Delete(path))
        } else if inserted < self.inserts.len() {
            let row = to_row(&self.inserts[inserted]);
            let next = IndexUpdate {
                deletes: self.deletes,
                inserts: self.inserts,
                stage: Stage::Inserting(inserted),
                outcome: self.outcome,
            };
            (next, StoreRequest::Insert(row))
        } else {
            let next = IndexUpdate {
                deletes: self.deletes,
                inserts: self.inserts,
                stage: Stage::Committing,
                outcome: self.outcome,
            };
            (next, StoreRequest::Commit)
        }
    }

    fn closing_with(self, outcome: Result<(), StoreError>) -> (res: (IndexUpdate, StoreRequest))
        ensures
            res.0@ == (UpdateView {
                stage: Stage::Closing,
                outcome: outcome_view(outcome),
                ..self@
            }),
            res.1@ == RequestView::Close,
    {
        let next = IndexUpdate {
            deletes: self.deletes,
            inserts: self.inserts,
            stage: Stage::Closing,
            outcome,
        };
        (next, StoreRequest::Close)
    }
}

/// Takes the update one step on: given the store's reply to the request it
/// was waiting on, returns the update as it stands now and the next request.
/// Deletes go first, then inserts, then the commit, all within the one
/// transaction; the first failure ends the writing.
pub fn update_index(update: IndexUpdate, reply: StoreReply) -> (res: (IndexUpdate, StoreRequest))
    ensures
        (res.0@, res.1@) == step(update@, reply@),
{
    proof {
        use_type_invariant(&update);
    }
    // The places of the plan are within its lengths, so the next place fits.
    let deletes_len: usize = update.deletes.len();
    let inserts_len: usize = update.inserts.len();
    match update.stage {
        Stage::Connecting => match reply {
            StoreReply::Done => {
                let next = IndexUpdate {
                    deletes: update.deletes,
                    inserts: update.inserts,
                    stage: Stage::Beginning,
                    outcome: update.outcome,
                };
                (next, StoreRequest::Begin)
            },
            StoreReply::Failed(_) => {
                let next = IndexUpdate {
                    deletes: update.deletes,
                    inserts: update.inserts,
                    stage: Stage::Finished,
                    outcome: Err(StoreError::Connection),
                };
                (next, StoreRequest::Finish(Err(StoreError::Connection)))
            },
        },
        Stage::Beginning => match reply {
            StoreReply::Done => update.write_after(0, 0),
            StoreReply::Failed(_) => update.closing_with(Err(StoreError::Transaction)),
        },
        Stage::Deleting(place) => match reply {
            StoreReply::Done => {
                assert(place < deletes_len);
                update.write_after(place + 1, 0)
            },
            StoreReply::Failed(reason) => update.closing_with(Err(StoreError::Write(reason))),
        },
        Stage::Inserting(place) => match reply {
            StoreReply::Done => {
                assert(place < inserts_len);
                update.write_after(deletes_len, place + 1)
            },
            StoreReply::Failed(reason) => update.closing_with(Err(StoreError::Write(reason))),
        },
        Stage::Committing => match reply {
            StoreReply::Done => update.closing_with(Ok(())),
            StoreReply::Failed(reason) => update.closing_with(Err(StoreError::Commit(reason))),
        },
        Stage::Closing => {
            let outcome = copy_outcome(&update.outcome);
            let next = IndexUpdate {
                deletes: update.deletes,
                inserts: update.inserts,
                stage: Stage::Finished,
                outcome: update.outcome,
            };
            (next, StoreRequest::Finish(outcome))
        },
        Stage::Finished => {
            let outcome = copy_outcome(&update.outcome);
            (update, StoreRequest::Finish(outcome))
        },
    }
}

} // verus!
