//! What a request asks of the volume.
//!
//! A request that changes anything is answered with a [`Plan`]: the actions
//! to perform, in order, and the reply to give once all of them are done.
//! Whoever performs them stops at the first that fails and asks [`failure`]
//! what to reply instead.
use crate::error::Error;
use crate::error::ERROR_NOT_FOUND;
use crate::error::ERROR_UNKNOWN;
use crate::metadata::FileInfo;
use crate::metadata::FileInfoView;
use crate::path::utf8;
use vstd::prelude::*;

verus! {

/// One step on the volume, or on the table of running uploads.
#[derive(Debug)]
pub enum Action {
    /// Create the file `path`, or empty it, and write `data` to it.
    Write { path: String, data: Vec<u8> },
    /// Rename the file `from` to `to`, replacing what was there.
    Rename { from: String, to: String },
    /// Store `info` as the metadata of the node `path`.
    PutInfo { path: String, info: FileInfo },
    /// Remove the file `path`.
    RemoveFile { path: String },
    /// Remove the metadata of the node `path`. A failure is ignored.
    RemoveInfo { path: String },
    /// Create the directory `path`.
    CreateDir { path: String },
    /// Remove the directory `path`: with all that is in it, or only if it is empty.
    RemoveDir { path: String, recursively: bool },
    /// Drop the upload that runs for `path`.
    EndUpload { path: String },
}

/// An [`Action`] as plain mathematics: paths as their bytes.
pub enum ActionView {
    Write { path: Seq<u8>, data: Seq<u8> },
    Rename { from: Seq<u8>, to: Seq<u8> },
    PutInfo { path: Seq<u8>, info: FileInfoView },
    RemoveFile { path: Seq<u8> },
    RemoveInfo { path: Seq<u8> },
    CreateDir { path: Seq<u8> },
    RemoveDir { path: Seq<u8>, recursively: bool },
    EndUpload { path: Seq<u8> },
}

impl View for Action {
    type V = ActionView;

    open spec fn view(&self) -> ActionView {
        match *self {
            Action::Write { path, data } => ActionView::Write { path: utf8(path@), data: data@ },
            Action::Rename { from, to } => ActionView::Rename { from: utf8(from@), to: utf8(to@) },
            Action::PutInfo { path, info } => ActionView::PutInfo { path: utf8(path@), info: info@ },
            Action::RemoveFile { path } => ActionView::RemoveFile { path: utf8(path@) },
            Action::RemoveInfo { path } => ActionView::RemoveInfo { path: utf8(path@) },
            Action::CreateDir { path } => ActionView::CreateDir { path: utf8(path@) },
            Action::RemoveDir { path, recursively } => ActionView::RemoveDir {
                path: utf8(path@),
                recursively,
            },
            Action::EndUpload { path } => ActionView::EndUpload { path: utf8(path@) },
        }
    }
}

/// The actions of a list, each as its view.
pub open spec fn action_views(actions: Seq<Action>) -> Seq<ActionView> {
    actions.map_values(|a: Action| a@)
}

/// The answer to a request that may change the volume.
#[derive(Debug)]
pub struct Plan {
    /// What to do, in this order.
    pub actions: Vec<Action>,
    /// What to reply when all of it is done.
    pub reply: Result<(), Error>,
}

/// A [`Plan`] as plain mathematics: the actions, and the code of the error that it replies, if any.
pub struct PlanView {
    pub actions: Seq<ActionView>,
    pub reply: Option<u32>,
}

impl View for Plan {
    type V = PlanView;

    open spec fn view(&self) -> PlanView {
        PlanView {
            actions: action_views(self.actions@),
            reply: match self.reply {
                Ok(_) => None,
                Err(e) => Some(e.code),
            },
        }
    }
}

impl PlanView {
    /// The plan that does nothing and replies the error `code`.
    pub open spec fn refusal(code: u32) -> PlanView {
        PlanView { actions: Seq::empty(), reply: Some(code) }
    }

    /// The plan that performs `actions` and then replies success.
    pub open spec fn of(actions: Seq<ActionView>) -> PlanView {
        PlanView { actions, reply: None }
    }
}

impl Plan {
    /// The plan that does nothing and replies `error`.
    pub fn refuse(error: Error) -> (plan: Plan)
        ensures
            plan@ == PlanView::refusal(error.code),
    {
        let plan = Plan { actions: Vec::new(), reply: Err(error) };
        assert(plan@.actions =~= Seq::empty());
        plan
    }

    /// The plan that performs `actions` and then replies success.
    pub fn accept(actions: Vec<Action>) -> (plan: Plan)
        ensures
            plan@ == PlanView::of(action_views(actions@)),
    {
        Plan { actions, reply: Ok(()) }
    }
}

/// What to reply when `action` has failed. `missing` says that the volume
/// found nothing at the path, `detail` is what the volume reported.
///
/// A failure to remove metadata is passed over: there is nothing to reply,
/// and the plan goes on. A file to remove that is not there is reported as
/// [`ERROR_NOT_FOUND`]. Every other failure is [`ERROR_UNKNOWN`].
pub fn failure(action: &Action, missing: bool, detail: String) -> (reply: Option<Error>)
    ensures
        action@ is RemoveInfo <==> reply is None,
        reply matches Some(e) ==> e.code == if action@ is RemoveFile && missing {
            ERROR_NOT_FOUND
        } else {
            ERROR_UNKNOWN
        },
        reply matches Some(e) ==> e.code == ERROR_UNKNOWN ==> e.message@ == detail@,
{
    match action {
        Action::RemoveInfo { .. } => None,
        Action::RemoveFile { .. } => {
            if missing {
                Some(Error::new(ERROR_NOT_FOUND, "File not found"))
            } else {
                Some(Error::unknown(detail))
            }
        },
        _ => Some(Error::unknown(detail)),
    }
}

} // verus!
