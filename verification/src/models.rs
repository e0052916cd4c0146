//! Domain models shared across the platform: repositories, users,
//! organizations, SSH keys, webhooks, CI runs and audit log entries.
//! They are plain data; persistence and business rules live elsewhere.

use vstd::prelude::*;

verus! {

/// A point in time in UTC: seconds since the Unix epoch and the
/// nanoseconds within that second.
#[derive(Debug, Clone, Copy, PartialEq, Eq, Structural)]
pub struct Timestamp {
    pub unix_seconds: i64,
    pub nanoseconds: u32,
}

/// A hosted repository.
#[derive(Debug, Clone, PartialEq, Eq)]
pub struct Repository {
    pub id: u64,
    pub owner: String,
    pub name: String,
    pub description: Option<String>,
    pub default_branch: String,
    pub is_private: bool,
    pub is_bare: bool,
    pub star_count: u32,
    pub created_at: Timestamp,
    pub updated_at: Timestamp,
}

impl Repository {
    /// The `owner/name` slug used in URLs and in the repository list.
    pub fn slug(&self) -> (slug: String)
        ensures
            slug@ == self.owner@ + seq!['/'] + self.name@,
    {
        proof {
            reveal_strlit("/");
        }
        let mut slug = self.owner.clone();
        slug.append("/");
        slug.append(self.name.as_str());
        assert(slug@ =~= self.owner@ + seq!['/'] + self.name@);
        slug
    }
}

/// A user account.
#[derive(Debug, Clone, PartialEq, Eq)]
pub struct User {
    pub id: u64,
    pub username: String,
    pub email: String,
    pub is_admin: bool,
    pub created_at: Timestamp,
}

/// An organization and its members.
#[derive(Debug, Clone, PartialEq, Eq)]
pub struct Organization {
    pub id: u64,
    pub name: String,
    pub display_name: String,
    pub member_ids: Vec<u64>,
}

/// An SSH public key registered to a user.
#[derive(Debug, Clone, PartialEq, Eq)]
pub struct SshKey {
    pub id: u64,
    pub owner_id: u64,
    pub name: String,
    pub fingerprint: String,
    pub algorithm: String,
    pub added_at: Timestamp,
}

/// A webhook fired on repository events.
#[derive(Debug, Clone, PartialEq, Eq)]
pub struct Webhook {
    pub id: u64,
    pub repository_id: u64,
    pub target_url: String,
    pub events: Vec<String>,
    pub active: bool,
}

/// The state of a CI run.
#[derive(Debug, Clone, Copy, PartialEq, Eq, Structural)]
pub enum ActionStatus {
    Queued,
    Running,
    Succeeded,
    Failed,
    Cancelled,
}

/// One run of a CI workflow.
#[derive(Debug, Clone, PartialEq, Eq)]
pub struct ActionRun {
    pub id: u64,
    pub repository_id: u64,
    pub workflow_name: String,
    pub status: ActionStatus,
    pub started_at: Timestamp,
    pub finished_at: Option<Timestamp>,
}

/// One entry of the audit log.
#[derive(Debug, Clone, PartialEq, Eq)]
pub struct AuditLogEntry {
    pub id: u64,
    pub actor: String,
    pub action: String,
    pub target: String,
    pub at: Timestamp,
}

} // verus!
