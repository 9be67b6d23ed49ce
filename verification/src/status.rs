//! The states of a task and the text that stands for each in the database.
use vstd::prelude::*;
use crate::text::same_text;

verus! {

/// Where a task stands.
#[derive(Debug, Clone, Copy, PartialEq, Eq, Structural)]
pub enum TaskStatus {
    Running,
    Completed,
    Paused,
    NotStarted,
}

/// The text stored for `status`.
pub open spec fn status_text(status: TaskStatus) -> Seq<char> {
    match status {
        TaskStatus::Running => "Running"@,
        TaskStatus::Completed => "Completed"@,
        TaskStatus::Paused => "Paused"@,
        TaskStatus::NotStarted => "Not yet started"@,
    }
}

/// The status that `text` stands for, if any.
pub open spec fn status_of_text(text: Seq<char>) -> Option<TaskStatus> {
    if text == "Running"@ {
        Some(TaskStatus::Running)
    } else if text == "Completed"@ {
        Some(TaskStatus::Completed)
    } else if text == "Paused"@ {
        Some(TaskStatus::Paused)
    } else if text == "Not yet started"@ {
        Some(TaskStatus::NotStarted)
    } else {
        None
    }
}

/// The message with which `text` is refused as a status.
pub open spec fn invalid_status_message(text: Seq<char>) -> Seq<char> {
    "Invalid TaskStatus string: "@ + text
}

impl TaskStatus {
    /// The text stored for this status.
    pub fn as_text(&self) -> (text: &'static str)
        ensures
            text@ == status_text(*self),
    {
        match self {
            TaskStatus::Running => "Running",
            TaskStatus::Completed => "Completed",
            TaskStatus::Paused => "Paused",
            TaskStatus::NotStarted => "Not yet started",
        }
    }

    /// The status that a stored text stands for; any other text is refused
    /// with a message that quotes it.
    pub fn from_text(text: &str) -> (res: Result<TaskStatus, String>)
        ensures
            match status_of_text(text@) {
                Some(status) => res == Ok::<TaskStatus, String>(status),
                None => res matches Err(e) && e@ == invalid_status_message(text@),
            },
    {
        if same_text(text, "Running") {
            Ok(TaskStatus::Running)
        } else if same_text(text, "Completed") {
            Ok(TaskStatus::Completed)
        } else if same_text(text, "Paused") {
            Ok(TaskStatus::Paused)
        } else if same_text(text, "Not yet started") {
            Ok(TaskStatus::NotStarted)
        } else {
            let mut message = "Invalid TaskStatus string: ".to_owned();
            message.append(text);
            Err(message)
        }
    }
}

/// Every status is read back from the text stored for it.
pub proof fn lemma_status_text_round_trip(status: TaskStatus)
    ensures
        status_of_text(status_text(status)) == Some(status),
{
    reveal_strlit("Running");
    reveal_strlit("Completed");
    reveal_strlit("Paused");
    reveal_strlit("Not yet started");
    lemma_status_texts_differ();
}

/// A text read as a status is the text stored for that status, so no two
/// texts stand for one status and no two statuses share a text.
pub proof fn lemma_text_status_round_trip(text: Seq<char>)
    ensures
        status_of_text(text) matches Some(status) ==> status_text(status) == text,
        forall|a: TaskStatus, b: TaskStatus| status_text(a) == status_text(b) ==> a == b,
{
    lemma_status_texts_differ();
}

/// The four stored texts have four different lengths.
pub proof fn lemma_status_texts_differ()
    ensures
        "Running"@.len() == 7,
        "Completed"@.len() == 9,
        "Paused"@.len() == 6,
        "Not yet started"@.len() == 15,
{
    reveal_strlit("Running");
    reveal_strlit("Completed");
    reveal_strlit("Paused");
    reveal_strlit("Not yet started");
}

} // verus!
