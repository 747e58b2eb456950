//! What the window does with a folder and a password.

use vstd::prelude::*;

use crate::crypto::{
    derive_key, password_key, random_salt, seal_error, zero_key, Key, Salt, PASSWORD_MAX,
};
use crate::job::{
    initial, task_view, tasks_view, total_weight, weight_at_most_len, Action, Job, Step, Task,
};
use crate::path::protected;
use crate::vault::{
    is_lock_plan, manifest_fits, mode_of, numbering, open_manifest, pending_in, read_pending, read_vault_mode,
    read_vault_salt, resume_plan, resume_tasks, salt_of, unknown_mode, unlock_plan, unlock_tasks,
    LockMode, PendingOp, MODE_FULL_STREAM,
};
use crate::walk::Listing;

pub use crate::walk::has_packable_content;

verus! {

/// Index of full encryption in the list of modes.
pub const MODE_FULL: i32 = 0;

/// Index of simple encryption in the list of modes.
pub const MODE_SIMPLE: i32 = 1;

/// Index of the move lock in the list of modes.
pub const MODE_MOVE: i32 = 2;

// ── modes ──

/// The label of a mode index.
pub open spec fn label_of(mode: i32) -> Seq<char> {
    if mode == MODE_FULL {
        "完全加密"@
    } else if mode == MODE_SIMPLE {
        "简单加密"@
    } else {
        "极速锁定"@
    }
}

/// The index of the mode that a vault was locked with; both kinds of full
/// encryption have the same one, and an unknown mode counts as a move lock.
pub open spec fn index_of(mode: u8) -> i32 {
    if mode == crate::vault::MODE_FULL || mode == MODE_FULL_STREAM {
        MODE_FULL
    } else if mode == crate::vault::MODE_SIMPLE {
        MODE_SIMPLE
    } else {
        MODE_MOVE
    }
}

/// Is the progress shown file by file? A move lock only renames and is done at once.
pub open spec fn shows_progress(mode: LockMode) -> bool {
    mode != LockMode::Move
}

/// Is the progress of a vault in this mode shown entry by entry?
pub open spec fn vault_shows_progress(mode: u8) -> bool {
    mode != crate::vault::MODE_MOVE
}

/// How a folder is locked under a mode index.
pub open spec fn lock_mode_of(mode: i32) -> LockMode {
    if mode == MODE_FULL {
        LockMode::Full
    } else if mode == MODE_SIMPLE {
        LockMode::Simple
    } else {
        LockMode::Move
    }
}

/// Human-readable label for a mode index.
pub fn mode_label(mode: i32) -> (s: &'static str)
    ensures
        s@ == label_of(mode),
{
    if mode == MODE_FULL {
        "完全加密"
    } else if mode == MODE_SIMPLE {
        "简单加密"
    } else {
        "极速锁定"
    }
}

/// The label of the mode of a vault with these first bytes.
pub open spec fn detected_label(head: Option<&[u8]>) -> Seq<char> {
    match head {
        None => "未知"@,
        Some(h) => match mode_of(h@) {
            Err(_) => "未知"@,
            Ok(m) => if m <= MODE_FULL_STREAM {
                label_of(index_of(m))
            } else {
                "未知"@
            },
        },
    }
}

/// The mode index of a vault with these first bytes.
pub open spec fn detected_index(head: Option<&[u8]>) -> Option<i32> {
    match head {
        None => None,
        Some(h) => match mode_of(h@) {
            Err(_) => None,
            Ok(m) => Some(index_of(m)),
        },
    }
}

/// Label for the mode stored in an existing vault, from the first bytes of the
/// vault; `None` where it cannot be opened.
pub fn detect_mode_label(head: Option<&[u8]>) -> (s: String)
    ensures
        s@ == detected_label(head),
{
    match head {
        None => String::from_str("未知"),
        Some(h) => match read_vault_mode(h) {
            Ok(crate::vault::MODE_FULL) => String::from_str("完全加密"),
            Ok(MODE_FULL_STREAM) => String::from_str("完全加密"),
            Ok(crate::vault::MODE_SIMPLE) => String::from_str("简单加密"),
            Ok(crate::vault::MODE_MOVE) => String::from_str("极速锁定"),
            _ => String::from_str("未知"),
        },
    }
}

/// Mode index of an existing vault, from the first bytes of the vault, so that a
/// folder can be locked again in the same mode.
pub fn detect_mode(head: Option<&[u8]>) -> (r: Option<i32>)
    ensures
        r == detected_index(head),
{
    match head {
        None => None,
        Some(h) => match read_vault_mode(h) {
            Ok(crate::vault::MODE_FULL) => Some(MODE_FULL),
            Ok(MODE_FULL_STREAM) => Some(MODE_FULL),
            Ok(crate::vault::MODE_SIMPLE) => Some(MODE_SIMPLE),
            Ok(_) => Some(MODE_MOVE),
            Err(_) => None,
        },
    }
}

/// A vault locked under a mode index is detected as locked under that index, and
/// an index outside the list counts as the move lock.
pub proof fn mode_is_detected(mode: i32)
    ensures
        index_of(crate::vault::mode_byte(lock_mode_of(mode))) == if mode == MODE_FULL || mode
            == MODE_SIMPLE {
            mode
        } else {
            MODE_MOVE
        },
        label_of(index_of(crate::vault::mode_byte(lock_mode_of(mode)))) == label_of(mode),
{
}

// ── locking ──

/// The message for a folder that holds nothing to lock.
pub open spec fn nothing_to_lock() -> Seq<char> {
    "当前文件夹没有可加密的文件。"@
}

/// The message for a password that is too long.
pub open spec fn password_too_long() -> Seq<char> {
    "密钥派生失败: "@ + "password is too long"@
}

/// Is there an entry that can be packed among these names?
pub open spec fn any_packable(names: Seq<String>) -> bool {
    exists|i: int| 0 <= i < names.len() && !protected(#[trigger] names[i]@)
}

/// Is this a fresh job over a plan and a last task?
pub open spec fn job_over(job: Job, plan: Seq<Step>, last: Action<Seq<char>, Seq<u8>>, count: nat, key: Seq<u8>) -> bool {
    &&& job.wf()
    &&& job@ == initial(plan.push(Task::Do(last)), count)
    &&& job@.outcome is None ==> job.key() == key
}

/// Derive a key from the password under a given salt and start locking the folder
/// in the chosen mode. `names` are the names of the folder's own entries, and
/// `listing` is what was collected of it, or why that failed.
pub fn encrypt_with_salt(
    names: &Vec<String>,
    listing: Result<Listing, String>,
    mode: i32,
    password: &[u8],
    salt: &Salt,
) -> (r: Result<Job, String>)
    ensures
        if !any_packable(names@) {
            r matches Err(e) && e@ == nothing_to_lock()
        } else if password@.len() > PASSWORD_MAX {
            r matches Err(e) && e@ == password_too_long()
        } else {
            match listing {
                Err(f) => r matches Err(e) && e@ == f@,
                Ok(l) => if !manifest_fits(lock_mode_of(mode), l@) {
                    r matches Err(e) && e@ == seal_error()
                } else {
                    let key = password_key(password@, salt@);
                    &&& r matches Ok(job)
                    &&& exists|plan: Seq<Step>| #[trigger]
                        is_lock_plan(
                            lock_mode_of(mode),
                            key,
                            salt@,
                            l@,
                            shows_progress(lock_mode_of(mode)),
                            plan,
                        ) && job_over(job, plan, Action::ShowIcon, 0, key)
                },
            }
        },
{
    if !has_packable_content(names) {
        return Err(String::from_str("当前文件夹没有可加密的文件。"));
    }
    let mut key = match derive_key(password, salt) {
        Ok(key) => key,
        Err(e) => {
            return Err(e);
        },
    };
    let listing = match listing {
        Ok(l) => l,
        Err(e) => {
            zero_key(&mut key);
            return Err(e);
        },
    };
    let lock_mode = if mode == MODE_FULL {
        LockMode::Full
    } else if mode == MODE_SIMPLE {
        LockMode::Simple
    } else {
        LockMode::Move
    };
    let ghost k = key@;
    let progress = lock_mode != LockMode::Move;
    assert(progress == shows_progress(lock_mode_of(mode)));
    let r = match crate::vault::lock_tasks(lock_mode, &listing, &key, salt, progress) {
        Ok(tasks) => {
            let ghost plan = tasks_view(tasks@);
            let job = start_with(&key, tasks, Action::ShowIcon);
            assert(job_over(job, plan, Action::ShowIcon, 0, k));
            Ok(job)
        },
        Err(e) => Err(e),
    };
    zero_key(&mut key);
    r
}

fn start_with(key: &Key, tasks: Vec<Task<String, Vec<u8>>>, last: Action<String, Vec<u8>>) -> (job:
    Job)
    ensures
        job_over(job, tasks_view(tasks@), crate::job::act_view(last), 0, key@),
{
    let ghost plan = tasks_view(tasks@);
    let mut tasks = tasks;
    tasks.push(Task::Do(last));
    proof {
        assert(tasks_view(tasks@) =~= plan.push(task_view(Task::Do(last))));
        weight_at_most_len(tasks_view(tasks@));
        assert(tasks.len() <= usize::MAX);
    }
    Job::start(key, tasks, 0)
}

/// Derive a key from the password under a fresh random salt and start locking the
/// folder in the chosen mode.
pub fn encrypt(
    names: &Vec<String>,
    listing: Result<Listing, String>,
    mode: i32,
    password: &[u8],
) -> (r: Result<Job, String>)
    ensures
        if !any_packable(names@) {
            r matches Err(e) && e@ == nothing_to_lock()
        } else if password@.len() > PASSWORD_MAX {
            r matches Err(e) && e@ == password_too_long()
        } else {
            match listing {
                Err(f) => r matches Err(e) && e@ == f@,
                Ok(l) => if !manifest_fits(lock_mode_of(mode), l@) {
                    r matches Err(e) && e@ == seal_error()
                } else {
                    &&& r matches Ok(job)
                    &&& exists|salt: Seq<u8>, plan: Seq<Step>|
                        salt.len() == 16 && #[trigger] is_lock_plan(
                            lock_mode_of(mode),
                            password_key(password@, salt),
                            salt,
                            l@,
                            shows_progress(lock_mode_of(mode)),
                            plan,
                        ) && job_over(
                            job,
                            plan,
                            Action::ShowIcon,
                            0,
                            password_key(password@, salt),
                        )
                },
            }
        },
{
    let salt = random_salt();
    encrypt_with_salt(names, listing, mode, password, &salt)
}

// ── unlocking ──

/// What unlocking a folder comes to: a plan and its key, or a message. `head` is
/// the first bytes of the vault, `body` what is to be decrypted of it, or why that
/// could not be read. An unlock that is taken up again shows its progress in every
/// mode.
pub open spec fn unlock_attempt(
    head: Seq<u8>,
    body: Result<Vec<u8>, String>,
    password: Seq<u8>,
    resumed: bool,
) -> Result<(Seq<Step>, Seq<u8>), Seq<char>> {
    match salt_of(head) {
        Err(e) => Err(e),
        Ok(salt) => if password.len() > PASSWORD_MAX {
            Err(password_too_long())
        } else {
            let key = password_key(password, salt);
            match mode_of(head) {
                Err(e) => Err(e),
                Ok(mode) => match body {
                    Err(e) => Err(e@),
                    Ok(bytes) => match open_manifest(mode, key, bytes@) {
                        Err(e) => Err(e),
                        Ok(manifest) => Ok(
                            (
                                unlock_plan(
                                    mode,
                                    key,
                                    manifest,
                                    numbering(manifest, bytes@),
                                    resumed || vault_shows_progress(mode),
                                ),
                                key,
                            ),
                        ),
                    },
                },
            }
        },
    }
}

/// Derive a key from the password and start unlocking the folder in the mode of
/// its vault.
pub fn decrypt(head: &[u8], body: Result<Vec<u8>, String>, password: &[u8]) -> (r: Result<
    Job,
    String,
>)
    ensures
        match unlock_attempt(head@, body, password@, false) {
            Err(e) => r matches Err(f) && f@ == e,
            Ok((plan, key)) => r matches Ok(job) && job_over(job, plan, Action::HideIcon, 0, key),
        },
{
    start_unlock(head, body, password, false)
}

fn start_unlock(
    head: &[u8],
    body: Result<Vec<u8>, String>,
    password: &[u8],
    resumed: bool,
) -> (r: Result<Job, String>)
    ensures
        match unlock_attempt(head@, body, password@, resumed) {
            Err(e) => r matches Err(f) && f@ == e,
            Ok((plan, key)) => r matches Ok(job) && job_over(job, plan, Action::HideIcon, 0, key),
        },
{
    let salt = match read_vault_salt(head) {
        Ok(salt) => salt,
        Err(e) => {
            return Err(e);
        },
    };
    let mut key = match derive_key(password, &salt) {
        Ok(key) => key,
        Err(e) => {
            return Err(e);
        },
    };
    let mode = match read_vault_mode(head) {
        Ok(mode) => mode,
        Err(e) => {
            zero_key(&mut key);
            return Err(e);
        },
    };
    let bytes = match body {
        Ok(bytes) => bytes,
        Err(e) => {
            zero_key(&mut key);
            return Err(e);
        },
    };
    let progress = resumed || mode != crate::vault::MODE_MOVE;
    let r = match unlock_tasks(mode, bytes.as_slice(), &key, progress) {
        Ok(tasks) => Ok(start_with(&key, tasks, Action::HideIcon)),
        Err(e) => Err(e),
    };
    zero_key(&mut key);
    r
}

// ── resuming ──

/// Direction of an unfinished operation left in the folder, from the content of
/// its journal.
pub fn pending_op(journal: Option<&[u8]>) -> (op: Option<PendingOp>)
    ensures
        op == pending_in(journal),
{
    read_pending(journal)
}

/// What finishing an interrupted lock comes to: a plan, the files counted already
/// and the key, or a message.
pub open spec fn relock_attempt(
    head: Seq<u8>,
    body: Result<Vec<u8>, String>,
    password: Seq<u8>,
) -> Result<(Seq<Step>, nat, Seq<u8>), Seq<char>> {
    match salt_of(head) {
        Err(e) => Err(e),
        Ok(salt) => if password.len() > PASSWORD_MAX {
            Err(password_too_long())
        } else {
            let key = password_key(password, salt);
            match mode_of(head) {
                Err(e) => Err(e),
                Ok(mode) => if mode > MODE_FULL_STREAM {
                    Err(unknown_mode(mode))
                } else {
                    match body {
                        Err(e) => Err(e@),
                        Ok(bytes) => match open_manifest(mode, key, bytes@) {
                            Err(e) => Err(e),
                            Ok(manifest) => match resume_plan(mode, manifest, true) {
                                Err(e) => Err(e),
                                Ok((plan, n)) => Ok((plan, n, key)),
                            },
                        },
                    }
                },
            }
        },
    }
}

fn resume_lock(head: &[u8], body: Result<Vec<u8>, String>, password: &[u8]) -> (r: Result<
    Job,
    String,
>)
    ensures
        match relock_attempt(head@, body, password@) {
            Err(e) => r matches Err(f) && f@ == e,
            Ok((plan, n, key)) => r matches Ok(job) && job_over(
                job,
                plan,
                Action::ShowIcon,
                n,
                key,
            ),
        },
{
    let salt = match read_vault_salt(head) {
        Ok(salt) => salt,
        Err(e) => {
            return Err(e);
        },
    };
    let mut key = match derive_key(password, &salt) {
        Ok(key) => key,
        Err(e) => {
            return Err(e);
        },
    };
    let mode = match read_vault_mode(head) {
        Ok(mode) => mode,
        Err(e) => {
            zero_key(&mut key);
            return Err(e);
        },
    };
    let bytes = match body {
        Ok(bytes) => bytes,
        Err(e) => {
            if mode <= MODE_FULL_STREAM {
                zero_key(&mut key);
                return Err(e);
            }
            Vec::new()
        },
    };
    let r = match resume_tasks(mode, bytes.as_slice(), &key, true) {
        Ok((tasks, n)) => {
            let ghost plan = tasks_view(tasks@);
            let mut tasks = tasks;
            let last: Action<String, Vec<u8>> = Action::ShowIcon;
            tasks.push(Task::Do(last));
            proof {
                let all = tasks_view(tasks@);
                assert(all =~= plan.push(Task::Do(Action::ShowIcon)));
                assert(all.drop_last() =~= plan);
                assert(total_weight(all) == total_weight(plan));
            }
            Ok(Job::start(&key, tasks, n))
        },
        Err(e) => Err(e),
    };
    zero_key(&mut key);
    r
}

/// Finish an operation that was interrupted by a crash: take the direction from
/// the journal, derive the key from the password, and go on where it stopped. The
/// progress is shown in every mode. Returns the direction and the job.
pub fn resume(
    pending: Option<PendingOp>,
    head: &[u8],
    body: Result<Vec<u8>, String>,
    password: &[u8],
) -> (r: Result<(PendingOp, Job), String>)
    ensures
        match pending {
            None => r matches Err(e) && e@ == "没有检测到未完成的操作。"@,
            Some(PendingOp::Encrypt) => match relock_attempt(head@, body, password@) {
                Err(e) => r matches Err(f) && f@ == e,
                Ok((plan, n, key)) => r matches Ok(t) && t.0 == PendingOp::Encrypt && job_over(
                    t.1,
                    plan,
                    Action::ShowIcon,
                    n,
                    key,
                ),
            },
            Some(PendingOp::Decrypt) => match unlock_attempt(head@, body, password@, true) {
                Err(e) => r matches Err(f) && f@ == e,
                Ok((plan, key)) => r matches Ok(t) && t.0 == PendingOp::Decrypt && job_over(
                    t.1,
                    plan,
                    Action::HideIcon,
                    0,
                    key,
                ),
            },
        },
{
    match pending {
        None => Err(String::from_str("没有检测到未完成的操作。")),
        Some(PendingOp::Encrypt) => match resume_lock(head, body, password) {
            Ok(job) => Ok((PendingOp::Encrypt, job)),
            Err(e) => Err(e),
        },
        Some(PendingOp::Decrypt) => match start_unlock(head, body, password, true) {
            Ok(job) => Ok((PendingOp::Decrypt, job)),
            Err(e) => Err(e),
        },
    }
}

// ── the icon of a locked folder ──

/// What an attribute change is made to.
#[derive(Clone, Copy, PartialEq, Eq, Debug, Structural)]
pub enum IconTarget {
    /// The folder's icon file.
    Ini,
    /// The folder itself.
    Folder,
}

/// A step of changing the folder's icon. `S` is the type of texts.
#[derive(PartialEq, Eq, Debug)]
pub enum IconChange<S> {
    /// Change file attributes.
    Attributes {
        /// Of what.
        target: IconTarget,
        /// The changes, as arguments of `attrib`.
        flags: &'static str,
    },
    /// Write the icon file; where that fails, the remaining steps are left out.
    WriteIni {
        /// Its content.
        content: S,
    },
    /// Remove the icon file.
    RemoveIni,
    /// Ask the shell to show the folder anew.
    NotifyShell,
}

/// A step as texts.
pub open spec fn icon_view(c: IconChange<String>) -> IconChange<Seq<char>> {
    match c {
        IconChange::Attributes { target, flags } => IconChange::Attributes { target, flags },
        IconChange::WriteIni { content } => IconChange::WriteIni { content: content@ },
        IconChange::RemoveIni => IconChange::RemoveIni,
        IconChange::NotifyShell => IconChange::NotifyShell,
    }
}

/// The steps of a list.
pub open spec fn icons_view(list: Seq<IconChange<String>>) -> Seq<IconChange<Seq<char>>> {
    list.map_values(|c: IconChange<String>| icon_view(c))
}

/// The content of the icon file that points at a program.
pub open spec fn ini_content(exe: Seq<char>) -> Seq<char> {
    "[.ShellClassInfo]\r\nIconResource="@ + exe + ",0\r\nConfirmFileOp=0\r\n"@
}

/// How the locked icon is set.
pub open spec fn icon_set(exe: Seq<char>) -> Seq<IconChange<Seq<char>>> {
    seq![
        IconChange::Attributes { target: IconTarget::Ini, flags: "-s -h -r" },
        IconChange::WriteIni { content: ini_content(exe) },
        IconChange::Attributes { target: IconTarget::Ini, flags: "+s +h" },
        IconChange::Attributes { target: IconTarget::Folder, flags: "+r" },
        IconChange::NotifyShell,
    ]
}

/// How the default icon is restored.
pub open spec fn icon_cleared() -> Seq<IconChange<Seq<char>>> {
    seq![
        IconChange::Attributes { target: IconTarget::Ini, flags: "-s -h -r" },
        IconChange::RemoveIni,
        IconChange::Attributes { target: IconTarget::Folder, flags: "-r" },
        IconChange::NotifyShell,
    ]
}

/// Point the folder's icon at the running program, if its path is known.
pub fn set_folder_icon(exe: Option<&str>) -> (steps: Vec<IconChange<String>>)
    ensures
        icons_view(steps@) == match exe {
            None => Seq::<IconChange<Seq<char>>>::empty(),
            Some(path) => icon_set(path@),
        },
{
    let mut steps: Vec<IconChange<String>> = Vec::new();
    match exe {
        None => {
            assert(icons_view(steps@) =~= Seq::empty());
        },
        Some(path) => {
            let mut content = String::from_str("[.ShellClassInfo]\r\nIconResource=");
            content.append(path);
            content.append(",0\r\nConfirmFileOp=0\r\n");
            assert(content@ =~= ini_content(path@));
            steps.push(IconChange::Attributes { target: IconTarget::Ini, flags: "-s -h -r" });
            steps.push(IconChange::WriteIni { content });
            steps.push(IconChange::Attributes { target: IconTarget::Ini, flags: "+s +h" });
            steps.push(IconChange::Attributes { target: IconTarget::Folder, flags: "+r" });
            steps.push(IconChange::NotifyShell);
            assert(icons_view(steps@) =~= icon_set(path@));
        },
    }
    steps
}

/// Give the folder its default icon back.
pub fn clear_folder_icon() -> (steps: Vec<IconChange<String>>)
    ensures
        icons_view(steps@) == icon_cleared(),
{
    let mut steps: Vec<IconChange<String>> = Vec::new();
    steps.push(IconChange::Attributes { target: IconTarget::Ini, flags: "-s -h -r" });
    steps.push(IconChange::RemoveIni);
    steps.push(IconChange::Attributes { target: IconTarget::Folder, flags: "-r" });
    steps.push(IconChange::NotifyShell);
    assert(icons_view(steps@) =~= icon_cleared());
    steps
}

// ── laws ──

/// Each index of the list of modes has its label, and a vault with the mode byte of an
/// index is detected as locked under that index and shown with its label: 0 and 3 are
/// full encryption, 1 is simple encryption and 2 is the move lock.
pub proof fn modes_are_told_by_their_bytes(
    head: &[u8],
    index: Option<i32>,
    label: String,
    of_index: &'static str,
    any: i32,
)
    requires
        call_ensures(detect_mode, (Some(head),), index),
        call_ensures(detect_mode_label, (Some(head),), label),
        call_ensures(mode_label, (any,), of_index),
    ensures
        of_index@ == if any == 0 {
            "完全加密"@
        } else if any == 1 {
            "简单加密"@
        } else {
            "极速锁定"@
        },
        head@.len() < 17 ==> index is None && label@ == "未知"@,
        head@.len() >= 17 ==> {
            let b = head@[16];
            &&& b == 0 || b == 3 <==> index == Some(0i32)
            &&& b == 1 <==> index == Some(1i32)
            &&& b == 2 || b > 3 <==> index == Some(2i32)
            &&& b <= 3 && index == Some(any) ==> label@ == of_index@
            &&& b > 3 ==> label@ == "未知"@
        },
{
}

/// Without a vault there is no mode to detect.
pub proof fn no_vault_has_no_mode(index: Option<i32>, label: String)
    requires
        call_ensures(detect_mode, (None::<&[u8]>,), index),
        call_ensures(detect_mode_label, (None::<&[u8]>,), label),
    ensures
        index is None,
        label@ == "未知"@,
{
}

/// The window knows of an operation to finish exactly where the journal begins with `E`
/// or `D`, and then in that direction.
pub proof fn pending_operation_is_that_of_the_journal(
    journal: Option<&[u8]>,
    op: Option<PendingOp>,
)
    requires
        call_ensures(pending_op, (journal,), op),
    ensures
        op == Some(PendingOp::Encrypt) <==> (journal matches Some(c) && c@.len() > 0 && c@[0] as int
            == 'E' as int),
        op == Some(PendingOp::Decrypt) <==> (journal matches Some(c) && c@.len() > 0 && c@[0] as int
            == 'D' as int),
{
}

/// Does a step change the attributes of this in this way?
pub open spec fn sets(step: IconChange<String>, target: IconTarget, flags: Seq<char>) -> bool {
    step matches IconChange::Attributes { target: t, flags: f } && t == target && f@ == flags
}

/// The locked look of a folder: the icon file is made writable, written so that it names
/// the program, hidden again, the folder is marked, and the shell is told. The default
/// look: the icon file is made writable and removed, the folder is unmarked, and the
/// shell is told. Without a program there is nothing to set.
pub proof fn icon_is_set_and_cleared(
    exe: &str,
    set: Vec<IconChange<String>>,
    unset: Vec<IconChange<String>>,
    nothing: Vec<IconChange<String>>,
)
    requires
        call_ensures(set_folder_icon, (Some(exe),), set),
        call_ensures(clear_folder_icon, (), unset),
        call_ensures(set_folder_icon, (None::<&str>,), nothing),
    ensures
        nothing@.len() == 0,
        set@.len() == 5,
        sets(set@[0], IconTarget::Ini, "-s -h -r"@),
        set@[1] matches IconChange::WriteIni { content } && content@
            == "[.ShellClassInfo]\r\nIconResource="@ + exe@ + ",0\r\nConfirmFileOp=0\r\n"@,
        sets(set@[2], IconTarget::Ini, "+s +h"@),
        sets(set@[3], IconTarget::Folder, "+r"@),
        set@[4] is NotifyShell,
        unset@.len() == 4,
        sets(unset@[0], IconTarget::Ini, "-s -h -r"@),
        unset@[1] is RemoveIni,
        sets(unset@[2], IconTarget::Folder, "-r"@),
        unset@[3] is NotifyShell,
{
    let a = icons_view(set@);
    let b = icons_view(unset@);
    let c = icons_view(nothing@);
    assert(a.len() == set@.len() && b.len() == unset@.len() && c.len() == nothing@.len());
    assert(a[0] == icon_view(set@[0]) && a[1] == icon_view(set@[1]) && a[2] == icon_view(set@[2])
        && a[3] == icon_view(set@[3]) && a[4] == icon_view(set@[4]));
    assert(b[0] == icon_view(unset@[0]) && b[1] == icon_view(unset@[1]) && b[2] == icon_view(
        unset@[2],
    ) && b[3] == icon_view(unset@[3]));
}

} // verus!
