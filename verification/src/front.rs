//! What the window, the dialogue and the command line come to on a disk: what each
//! of them starts locks the folder, finishes a lock, or gives the folder back.

use vstd::prelude::*;
use vstd::utf8::encode_utf8;

use crate::clearing::sorting_keeps_listing;
use crate::cli::{cmd_decrypt, cmd_encrypt, cmd_encrypt_simple, cmd_lock_starts, lock_gives};
use crate::crypto::{password_key, Key, Salt};
use crate::dialog::EncryptMode;
use crate::disk::{
    content, gets_to, keeps_through, part_of, pins_hold, pins_only, run, running, store_of,
    stored_content, stores, Disk, Tree, World,
};
use crate::icon::{icon_changes_nothing, window_job_ends_as_its_plan};
use crate::job::{initial, loss_message, Action, Job, State, Step, Store, Task};
use crate::laws::{
    committed, finishable, finished_lock, got_back, hold_contents, interrupted,
    interrupted_lock_can_be_finished, left_among, lemma_clear_and_end, lemma_exactly_back,
    lemma_locked_unlockable, lemma_losses, lemma_openable_marked, lemma_unread_does_not_matter,
    lockable, locked, locking_locks, losses_are_reported, marked, meta_fits, mode_store,
    nothing_lost, prepared, reopenable, reopened, restartable, stream_head, stream_unlocked,
    unlocked_disk, unlocked_with_loss, unlocking_from_store_restores, unlocking_keeps,
    unlocking_streams_restores, unlocking_unnumbered_streams_restores, vault_body, vault_of,
    vault_opens, versioned_meta, works,
};
use crate::legacy::{
    files_in, packed_manifest, packed_unlocked, packed_vault, packs, rereadable,
    unlocking_packed_restores,
};
use crate::logic::{
    any_packable, decrypt, encrypt, encrypt_with_salt, job_over, resume, shows_progress,
};
use crate::manifest::{files_announced, manifest_bytes, manifest_says, Magic, Packed, Reading};
use crate::path::{ends_with, kept_name, protected, protected_names_are_the_kept_ones, stored_name};
use crate::reading::first_format_files;
use crate::restoring::{fits, losses, survives, survivors, unlockable};
use crate::session::{lock, lock_started, lock_with_salt, unlock, Started};
use crate::sort::path_sort;
use crate::storing::stashed;
use crate::stream::joined;
use crate::streaming::{openable, sealable};
use crate::text::{decimal, le16};
use crate::vault::{
    decrypt_folder, decrypt_folder_with_progress, encrypt_folder, encrypt_folder_move,
    encrypt_folder_move_with_progress, encrypt_folder_simple, encrypt_folder_simple_with_progress,
    encrypt_folder_with_progress, files_among, is_lock_job, is_lock_plan, lock_entries,
    lock_manifest, lock_plan, mode_byte, mode_of, numbering, open_manifest, resume_encrypt,
    resume_plan, salt_of, seals, sorted_listing, stored_pairs, unknown_mode, unlock_plan, LockMode,
    Pair, PendingOp,
};
use crate::walk::{Listed, Listing};

verus! {

// ── what holds of a vault and a folder ──

/// The end of a job that has dealt with a number of files and lost none.
pub open spec fn done_with(n: nat) -> State {
    State { todo: Seq::empty(), count: n, lost: Seq::empty(), outcome: Some(Ok(n)) }
}

/// Can a folder be locked in a mode, so that its vault can be read again?
pub open spec fn can_lock(w: World, mode: LockMode, l: Listed, d: Disk) -> bool {
    let manifest = lock_manifest(mode, sorted_listing(l));
    &&& works(w)
    &&& lockable(d.tree, d.pinned, l)
    &&& l.dirs.len() + l.files.len() > 0
    &&& manifest.len() <= 0x10_0000_0000
    &&& mode == LockMode::Full ==> manifest.len() + 28 <= 0xFFFF_FFFF && sealable(
        d.tree,
        sorted_listing(l).files,
    )
}

/// A vault that a lock made of a folder under the key at hand.
pub open spec fn made_by_lock(
    w: World,
    mode: LockMode,
    original: Tree,
    pinned: Set<Seq<char>>,
    l: Listed,
    salt: Seq<u8>,
    ct: Seq<u8>,
) -> bool {
    &&& works(w)
    &&& lockable(original, pinned, l)
    &&& seals(w.key, lock_manifest(mode, sorted_listing(l)), ct)
    &&& salt.len() == 16
    &&& meta_fits(mode, ct)
    &&& mode == LockMode::Full ==> sealable(original, sorted_listing(l).files)
}

/// Does a job lock the folder: does it end with every file counted, the vault in
/// place and the tree gone, and is the folder at all times either untouched or such
/// that the lock can be finished?
pub open spec fn locks(
    w: World,
    mode: LockMode,
    l: Listed,
    salt: Seq<u8>,
    ct: Seq<u8>,
    d: Disk,
    s: State,
) -> bool {
    let files = sorted_listing(l).files;
    let v = vault_of(w, mode, d.tree, sorted_listing(l), salt, ct);
    let e = finished_lock(mode, d.tree, files, committed(d, v));
    &&& made_by_lock(w, mode, d.tree, d.pinned, l, salt, ct)
    &&& gets_to(w, finishable(mode, files, v, d), s, d, done_with(l.files.len()), e)
    &&& locked(mode, d.tree, d.pinned, files, v, e)
}

/// Does a job lock the folder under some nonce of its manifest?
pub open spec fn locks_somehow(
    w: World,
    mode: LockMode,
    l: Listed,
    salt: Seq<u8>,
    d: Disk,
    s: State,
) -> bool {
    exists|ct: Seq<u8>| #[trigger] locks(w, mode, l, salt, ct, d, s)
}

/// A folder whose vault can be unlocked: all that was locked is there, in the vault,
/// in the store, or restored already.
pub open spec fn all_there(mode: LockMode, original: Tree, l: Listed, d: Disk) -> bool {
    let files = sorted_listing(l).files;
    match mode {
        LockMode::Full => openable(original, files, d),
        _ => unlockable(original, mode_store(mode), stored_pairs(files), d)
            && nothing_lost(mode_store(mode), stored_pairs(files), d),
    }
}

/// Does a job give the folder back: does it end with every file counted, the whole
/// original tree restored, and neither vault nor journal nor store left?
pub open spec fn gives_back(
    w: World,
    mode: LockMode,
    original: Tree,
    l: Listed,
    v: Seq<u8>,
    d: Disk,
    s: State,
    back: Disk,
) -> bool {
    let files = sorted_listing(l).files;
    &&& gets_to(
        w,
        unlocking_keeps(mode, original, files, v, reopened(d)),
        s,
        reopened(d),
        done_with(l.files.len()),
        back,
    )
    &&& got_back(original, d.tree, back.tree)
    &&& back.vault is None
    &&& back.state is None
    &&& mode != LockMode::Full ==> store_of(back, mode_store(mode)) is None
}

/// Does a job give the folder back, on whatever disk it ends?
pub open spec fn gives_all_back(
    w: World,
    mode: LockMode,
    original: Tree,
    l: Listed,
    v: Seq<u8>,
    d: Disk,
    s: State,
) -> bool {
    exists|back: Disk| #[trigger] gives_back(w, mode, original, l, v, d, s, back)
}

/// Are these the first bytes of a vault, enough to read its salt and its mode?
pub open spec fn head_of(head: Seq<u8>, v: Seq<u8>) -> bool {
    head.len() >= 17 && v.len() >= 17 && head.take(17) == v.take(17)
}

proof fn lemma_done(n: nat)
    ensures
        running(Seq::empty(), n, Seq::empty()) == done_with(n),
{
}

#[verifier::rlimit(30)]
proof fn lemma_plan_locks(
    w: World,
    mode: LockMode,
    l: Listed,
    salt: Seq<u8>,
    progress: bool,
    plan: Seq<Step>,
    d: Disk,
)
    requires
        can_lock(w, mode, l, d),
        salt.len() == 16,
        is_lock_plan(mode, w.key, salt, l, progress, plan),
    ensures
        locks_somehow(w, mode, l, salt, d, initial(plan, 0)),
        locks_somehow(w, mode, l, salt, d, initial(plan.push(Task::Do(Action::ShowIcon)), 0)),
{
    let s = sorted_listing(l);
    let manifest = lock_manifest(mode, s);
    let ct = choose|ct: Seq<u8>|
        #![trigger seals(w.key, manifest, ct)]
        seals(w.key, manifest, ct) && plan == lock_plan(mode, salt, ct, s, progress);
    let v = vault_of(w, mode, d.tree, s, salt, ct);
    let e = finished_lock(mode, d.tree, s.files, committed(d, v));
    lemma_done(l.files.len());
    locking_locks(w, mode, l, salt, ct, progress, d);
    assert(locks(w, mode, l, salt, ct, d, initial(plan, 0)));
    icon_changes_nothing(
        w,
        finishable(mode, s.files, v, d),
        plan,
        0,
        Action::ShowIcon,
        d,
        done_with(l.files.len()),
        e,
    );
    assert(locks(w, mode, l, salt, ct, d, initial(plan.push(Task::Do(Action::ShowIcon)), 0)));
}

#[verifier::rlimit(30)]
proof fn lemma_plan_gives_back(
    w: World,
    mode: LockMode,
    original: Tree,
    pinned: Set<Seq<char>>,
    l: Listed,
    salt: Seq<u8>,
    ct: Seq<u8>,
    progress: bool,
    d: Disk,
)
    requires
        made_by_lock(w, mode, original, pinned, l, salt, ct),
        d.vault == Some(vault_of(w, mode, original, sorted_listing(l), salt, ct)),
        all_there(mode, original, l, d),
    ensures
        ({
            let v = d.vault->0;
            &&& salt_of(v) == Ok::<Seq<u8>, Seq<char>>(salt)
            &&& mode_of(v) == Ok::<u8, Seq<char>>(mode_byte(mode))
            &&& open_manifest(mode_byte(mode), w.key, vault_body(v)) matches Ok(manifest)
            &&& ({
                let plan = unlock_plan(
                    mode_byte(mode),
                    w.key,
                    manifest,
                    numbering(manifest, vault_body(v)),
                    progress,
                );
                &&& gives_all_back(w, mode, original, l, v, d, initial(plan, 0))
                &&& gives_all_back(
                    w,
                    mode,
                    original,
                    l,
                    v,
                    d,
                    initial(plan.push(Task::Do(Action::HideIcon)), 0),
                )
            })
        }),
{
    let s = sorted_listing(l);
    let v = vault_of(w, mode, original, s, salt, ct);
    let r = reopened(d);
    let manifest = lock_manifest(mode, s);
    let plan = unlock_plan(
        mode_byte(mode),
        w.key,
        manifest,
        numbering(manifest, vault_body(v)),
        progress,
    );
    let back = unlocked_disk(w, mode, original, l, salt, ct, r);
    vault_opens(w, mode, original, s, salt, ct, manifest);
    lemma_done(l.files.len());
    if mode == LockMode::Full {
        lemma_openable_marked(original, s.files, d, r);
        assert(reopened(r) == r);
        unlocking_streams_restores(w, original, pinned, l, salt, ct, progress, r);
    } else {
        lemma_unread_does_not_matter(original, mode_store(mode), stored_pairs(s.files), d);
        unlocking_from_store_restores(w, mode, original, pinned, l, salt, ct, progress, r);
    }
    assert(gives_back(w, mode, original, l, v, d, initial(plan, 0), back));
    icon_changes_nothing(
        w,
        unlocking_keeps(mode, original, s.files, v, r),
        plan,
        0,
        Action::HideIcon,
        r,
        done_with(l.files.len()),
        back,
    );
    assert(gives_back(
        w,
        mode,
        original,
        l,
        v,
        d,
        initial(plan.push(Task::Do(Action::HideIcon)), 0),
        back,
    ));
}

/// The world with the key of a password and a salt at hand.
pub open spec fn keyed(w: World, password: Seq<u8>, salt: Seq<u8>) -> World {
    World { key: password_key(password, salt), ..w }
}

/// Can a folder be locked in a mode under a password, whatever the salt?
pub open spec fn can_lock_under(
    w: World,
    password: Seq<u8>,
    mode: LockMode,
    l: Listed,
    d: Disk,
) -> bool {
    &&& password.len() <= 0xFFFF_FFFF
    &&& forall|salt: Seq<u8>| can_lock(#[trigger] keyed(w, password, salt), mode, l, d)
}

/// Does a job lock the folder under a password and some salt?
pub open spec fn locks_under(
    w: World,
    password: Seq<u8>,
    mode: LockMode,
    l: Listed,
    d: Disk,
    s: State,
) -> bool {
    exists|salt: Seq<u8>|
        salt.len() == 16 && locks_somehow(#[trigger] keyed(w, password, salt), mode, l, salt, d, s)
}

// ── locking ──

/// What the dialogue starts locks the folder: with full encryption where the full
/// mode was chosen, and in the streams of the host file where the simple mode was.
pub proof fn dialogue_locks_as_chosen(
    w: World,
    mode: EncryptMode,
    listing: Listing,
    password: &[u8],
    salt: &Salt,
    s: Started,
    d: Disk,
)
    requires
        call_ensures(lock_with_salt, (mode, Ok::<Listing, String>(listing), password, salt), s),
        password@.len() <= 0xFFFF_FFFF,
    ensures
        mode == EncryptMode::Full && can_lock(
            keyed(w, password@, salt@),
            LockMode::Full,
            listing@,
            d,
        ) ==> (s matches Started::Going(job) && locks_somehow(
            keyed(w, password@, salt@),
            LockMode::Full,
            listing@,
            salt@,
            d,
            job@,
        )),
        mode == EncryptMode::Simple && can_lock(
            keyed(w, password@, salt@),
            LockMode::Simple,
            listing@,
            d,
        ) ==> (s matches Started::Going(job) && locks_somehow(
            keyed(w, password@, salt@),
            LockMode::Simple,
            listing@,
            salt@,
            d,
            job@,
        )),
{
    let k = keyed(w, password@, salt@);
    let l = listing@;
    assert(salt@.len() == 16);
    if mode == EncryptMode::Full && can_lock(k, LockMode::Full, l, d) {
        lemma_started_locks(k, LockMode::Full, mode, listing, password@, salt@, s, d);
    }
    if mode == EncryptMode::Simple && can_lock(k, LockMode::Simple, l, d) {
        lemma_started_locks(k, LockMode::Simple, mode, listing, password@, salt@, s, d);
    }
}

#[verifier::rlimit(30)]
proof fn lemma_started_locks(
    k: World,
    lm: LockMode,
    mode: EncryptMode,
    listing: Listing,
    password: Seq<u8>,
    salt: Seq<u8>,
    s: Started,
    d: Disk,
)
    requires
        lm == if mode == EncryptMode::Full {
            LockMode::Full
        } else {
            LockMode::Simple
        },
        password.len() <= 0xFFFF_FFFF,
        lock_started(mode, Ok::<Listing, String>(listing), password, salt, s),
        k.key == password_key(password, salt),
        salt.len() == 16,
        can_lock(k, lm, listing@, d),
    ensures
        s matches Started::Going(job) && locks_somehow(k, lm, listing@, salt, d, job@),
{
    let l = listing@;
    let job = s->Going_0;
    assert(is_lock_job(lm, k.key, salt, l, false, job));
    let plan = choose|plan: Seq<Step>| #[trigger]
        is_lock_plan(lm, k.key, salt, l, false, plan) && job@ == initial(plan, 0);
    lemma_plan_locks(k, lm, l, salt, false, plan, d);
}

/// The same under the fresh salt of a dialogue that is not given one.
pub proof fn dialogue_locks_under_a_fresh_salt(
    w: World,
    mode: EncryptMode,
    listing: Listing,
    password: &[u8],
    s: Started,
    d: Disk,
)
    requires
        call_ensures(lock, (mode, Ok::<Listing, String>(listing), password), s),
    ensures
        mode == EncryptMode::Full && can_lock_under(w, password@, LockMode::Full, listing@, d) ==> (
        s matches Started::Going(job) && locks_under(
            w,
            password@,
            LockMode::Full,
            listing@,
            d,
            job@,
        )),
        mode == EncryptMode::Simple && can_lock_under(
            w,
            password@,
            LockMode::Simple,
            listing@,
            d,
        ) ==> (s matches Started::Going(job) && locks_under(
            w,
            password@,
            LockMode::Simple,
            listing@,
            d,
            job@,
        )),
{
    let salt = choose|salt: Seq<u8>|
        salt.len() == 16 && #[trigger] lock_started(
            mode,
            Ok::<Listing, String>(listing),
            password@,
            salt,
            s,
        );
    let k = keyed(w, password@, salt);
    if mode == EncryptMode::Full && can_lock_under(w, password@, LockMode::Full, listing@, d) {
        assert(can_lock(k, LockMode::Full, listing@, d));
        lemma_started_locks(k, LockMode::Full, mode, listing, password@, salt, s, d);
    }
    if mode == EncryptMode::Simple && can_lock_under(w, password@, LockMode::Simple, listing@, d) {
        assert(can_lock(k, LockMode::Simple, listing@, d));
        lemma_started_locks(k, LockMode::Simple, mode, listing, password@, salt, s, d);
    }
}

/// The command `encrypt` locks the folder with full encryption under its password.
pub proof fn command_encrypt_locks_fully(
    w: World,
    pw: &str,
    listing: Listing,
    r: Result<Job, String>,
    d: Disk,
)
    requires
        call_ensures(cmd_encrypt, (Some(pw), Ok::<Listing, String>(listing)), r),
        can_lock_under(w, encode_utf8(pw@), LockMode::Full, listing@, d),
    ensures
        r matches Ok(job) && locks_under(
            w,
            encode_utf8(pw@),
            LockMode::Full,
            listing@,
            d,
            job@,
        ),
{
    lemma_command_locks(w, LockMode::Full, EncryptMode::Full, pw, listing, r, d);
}

/// The command `encrypt-simple` locks the folder in the simple mode under its
/// password.
pub proof fn command_encrypt_simple_locks_simply(
    w: World,
    pw: &str,
    listing: Listing,
    r: Result<Job, String>,
    d: Disk,
)
    requires
        call_ensures(cmd_encrypt_simple, (Some(pw), Ok::<Listing, String>(listing)), r),
        can_lock_under(w, encode_utf8(pw@), LockMode::Simple, listing@, d),
    ensures
        r matches Ok(job) && locks_under(
            w,
            encode_utf8(pw@),
            LockMode::Simple,
            listing@,
            d,
            job@,
        ),
{
    lemma_command_locks(w, LockMode::Simple, EncryptMode::Simple, pw, listing, r, d);
}

proof fn lemma_command_locks(
    w: World,
    lm: LockMode,
    mode: EncryptMode,
    pw: &str,
    listing: Listing,
    r: Result<Job, String>,
    d: Disk,
)
    requires
        lm == if mode == EncryptMode::Full {
            LockMode::Full
        } else {
            LockMode::Simple
        },
        cmd_lock_starts(mode, Some(encode_utf8(pw@)), Ok::<Listing, String>(listing), r),
        can_lock_under(w, encode_utf8(pw@), lm, listing@, d),
    ensures
        r matches Ok(job) && locks_under(w, encode_utf8(pw@), lm, listing@, d, job@),
{
    let p = encode_utf8(pw@);
    let from = Ok::<Listing, String>(listing);
    let salt = choose|salt: Seq<u8>| salt.len() == 16 && #[trigger] lock_gives(mode, from, p, salt, r);
    let k = keyed(w, p, salt);
    assert(can_lock(k, lm, listing@, d));
    let s = match r {
        Ok(job) => Started::Going(job),
        Err(e) => if lock_started(mode, from, p, salt, Started::NoKey(e)) {
            Started::NoKey(e)
        } else {
            Started::Failed(e)
        },
    };
    lemma_started_locks(k, lm, mode, listing, p, salt, s, d);
}

/// How the window locks a folder under the first, the second and any other index of
/// its list.
pub open spec fn mode_at(index: i32) -> LockMode {
    if index == 0 {
        LockMode::Full
    } else if index == 1 {
        LockMode::Simple
    } else {
        LockMode::Move
    }
}

/// What the window starts locks a folder that holds anything but the names that it
/// keeps for itself: with full encryption under the index 0, in the streams of the
/// host file under the index 1, and by moving the files under any other.
pub proof fn window_locks_as_chosen(
    w: World,
    names: &Vec<String>,
    listing: Listing,
    index: i32,
    password: &[u8],
    salt: &Salt,
    r: Result<Job, String>,
    i: int,
    d: Disk,
)
    requires
        call_ensures(
            encrypt_with_salt,
            (names, Ok::<Listing, String>(listing), index, password, salt),
            r,
        ),
        0 <= i < names@.len(),
        !kept_name(names@[i]@),
        password@.len() <= 0xFFFF_FFFF,
        can_lock(keyed(w, password@, salt@), mode_at(index), listing@, d),
    ensures
        r matches Ok(job) && locks_somehow(
            keyed(w, password@, salt@),
            mode_at(index),
            listing@,
            salt@,
            d,
            job@,
        ),
{
    let k = keyed(w, password@, salt@);
    let lm = mode_at(index);
    protected_names_are_the_kept_ones(names@[i]@);
    assert(salt@.len() == 16);
    assert(!protected(names@[i]@));
    let job = r->Ok_0;
    let plan = choose|plan: Seq<Step>| #[trigger]
        is_lock_plan(lm, k.key, salt@, listing@, shows_progress(lm), plan) && job_over(
            job,
            plan,
            Action::ShowIcon,
            0,
            k.key,
        );
    lemma_plan_locks(k, lm, listing@, salt@, shows_progress(lm), plan, d);
}

/// The same under the fresh salt of a window that is not given one.
pub proof fn window_locks_under_a_fresh_salt(
    w: World,
    names: &Vec<String>,
    listing: Listing,
    index: i32,
    password: &[u8],
    r: Result<Job, String>,
    i: int,
    d: Disk,
)
    requires
        call_ensures(encrypt, (names, Ok::<Listing, String>(listing), index, password), r),
        0 <= i < names@.len(),
        !kept_name(names@[i]@),
        can_lock_under(w, password@, mode_at(index), listing@, d),
    ensures
        r matches Ok(job) && locks_under(w, password@, mode_at(index), listing@, d, job@),
{
    let lm = mode_at(index);
    protected_names_are_the_kept_ones(names@[i]@);
    assert(!protected(names@[i]@));
    assert(can_lock(keyed(w, password@, Seq::empty()), lm, listing@, d));
    let job = r->Ok_0;
    let (salt, plan) = choose|salt: Seq<u8>, plan: Seq<Step>|
        salt.len() == 16 && #[trigger] is_lock_plan(
            lm,
            password_key(password@, salt),
            salt,
            listing@,
            shows_progress(lm),
            plan,
        ) && job_over(job, plan, Action::ShowIcon, 0, password_key(password@, salt));
    let k = keyed(w, password@, salt);
    assert(can_lock(k, lm, listing@, d));
    lemma_plan_locks(k, lm, listing@, salt, shows_progress(lm), plan, d);
}

/// What a lock leaves behind begins with its salt and names its mode: full encryption
/// is 3 and leaves every store as it was, the simple mode is 1 and has every content
/// in the streams of the host file, and the move lock is 2 and has every content in
/// the container.
#[verifier::rlimit(30)]
pub proof fn what_a_lock_leaves(
    w: World,
    mode: LockMode,
    l: Listed,
    salt: Seq<u8>,
    ct: Seq<u8>,
    d: Disk,
    s: State,
)
    requires
        locks(w, mode, l, salt, ct, d, s),
    ensures
        ({
            let files = sorted_listing(l).files;
            let v = vault_of(w, mode, d.tree, sorted_listing(l), salt, ct);
            let e = finished_lock(mode, d.tree, files, committed(d, v));
            &&& gets_to(w, |x: Disk| true, s, d, done_with(l.files.len()), e)
            &&& e.vault == Some(v)
            &&& e.tree == pins_only(d.tree, d.pinned)
            &&& v.len() >= 17
            &&& v.take(16) == salt
            &&& match mode {
                LockMode::Full => v[16] == 3 && e.streams == d.streams && e.data == d.data,
                LockMode::Simple => {
                    &&& v[16] == 1
                    &&& e.streams matches Some(held)
                    &&& forall|i: int|
                        0 <= i < files.len() ==> held.contains_key(#[trigger] stored_name(i as nat))
                            && held[stored_name(i as nat)] == content(d.tree, files[i])
                },
                LockMode::Move => {
                    &&& v[16] == 2
                    &&& e.data matches Some(held)
                    &&& forall|i: int|
                        0 <= i < files.len() ==> held.contains_key(#[trigger] stored_name(i as nat))
                            && held[stored_name(i as nat)] == content(d.tree, files[i])
                },
            }
        }),
{
    let files = sorted_listing(l).files;
    let v = vault_of(w, mode, d.tree, sorted_listing(l), salt, ct);
    let e = finished_lock(mode, d.tree, files, committed(d, v));
    vault_opens(w, mode, d.tree, sorted_listing(l), salt, ct, lock_manifest(mode, sorted_listing(l)));
    lemma_keeps_anything(w, finishable(mode, files, v, d), s, d, done_with(l.files.len()), e);
    if mode != LockMode::Full {
        let store = mode_store(mode);
        lemma_store_stays(store, stored_pairs(files), prepared(store, committed(d, v)), files.len());
        assert forall|i: int| 0 <= i < files.len() implies stores(
            e,
            store,
            #[trigger] stored_name(i as nat),
        ) && stored_content(e, store, stored_name(i as nat)) == content(d.tree, files[i]) by {
            assert(stored_pairs(files)[i].1 == stored_name(i as nat));
        }
        assert(store_of(e, store)->0 == store_of(
            stashed(store, stored_pairs(files), prepared(store, committed(d, v)), files.len()),
            store,
        )->0);
    }
}

proof fn lemma_store_stays(store: Store, pairs: Seq<Pair>, d: Disk, k: nat)
    requires
        store_of(d, store) is Some,
    ensures
        store_of(stashed(store, pairs, d, k), store) is Some,
    decreases k,
{
    if k > 0 {
        lemma_store_stays(store, pairs, d, (k - 1) as nat);
    }
}

proof fn lemma_keeps_anything(
    w: World,
    keeps: spec_fn(Disk) -> bool,
    s: State,
    d: Disk,
    s2: State,
    e: Disk,
)
    requires
        gets_to(w, keeps, s, d, s2, e),
    ensures
        gets_to(w, |x: Disk| true, s, d, s2, e),
{
    let n = choose|n: nat|
        #![trigger run(w, n, s, d)]
        run(w, n, s, d) == (s2, e) && keeps_through(w, keeps, n, s, d);
    assert(keeps_through(w, |x: Disk| true, n, s, d));
}

// ── unlocking ──

proof fn lemma_head(head: Seq<u8>, v: Seq<u8>)
    requires
        head_of(head, v),
    ensures
        salt_of(head) == salt_of(v),
        mode_of(head) == mode_of(v),
{
    assert(head.take(16) =~= head.take(17).take(16));
    assert(v.take(16) =~= v.take(17).take(16));
    assert(head[16] == head.take(17)[16]);
    assert(v[16] == v.take(17)[16]);
}

/// A folder that was locked in any mode is given back by what the dialogue starts
/// with the same password: the first bytes of its vault, and what is to be decrypted
/// of it, are all that this takes.
pub proof fn dialogue_unlocks(
    w: World,
    mode: LockMode,
    original: Tree,
    pinned: Set<Seq<char>>,
    l: Listed,
    salt: &Salt,
    ct: Seq<u8>,
    head: &[u8],
    body: Vec<u8>,
    password: &[u8],
    s: Started,
    d: Disk,
)
    requires
        made_by_lock(w, mode, original, pinned, l, salt@, ct),
        w.key == password_key(password@, salt@),
        password@.len() <= 0xFFFF_FFFF,
        d.vault == Some(vault_of(w, mode, original, sorted_listing(l), salt@, ct)),
        all_there(mode, original, l, d),
        head_of(head@, d.vault->0),
        body@ == vault_body(d.vault->0),
        call_ensures(unlock, (salt, head, Ok::<Vec<u8>, String>(body), password), s),
    ensures
        s matches Started::Going(job) && gives_all_back(
            w,
            mode,
            original,
            l,
            d.vault->0,
            d,
            job@,
        ),
{
    lemma_plan_gives_back(w, mode, original, pinned, l, salt@, ct, false, d);
    lemma_head(head@, d.vault->0);
}

/// The command `decrypt` gives a folder back that was locked in any mode with the
/// same password.
pub proof fn command_decrypt_unlocks(
    w: World,
    mode: LockMode,
    original: Tree,
    pinned: Set<Seq<char>>,
    l: Listed,
    salt: Seq<u8>,
    ct: Seq<u8>,
    head: Vec<u8>,
    body: Vec<u8>,
    pw: &str,
    r: Result<Job, String>,
    d: Disk,
)
    requires
        made_by_lock(w, mode, original, pinned, l, salt, ct),
        w.key == password_key(encode_utf8(pw@), salt),
        encode_utf8(pw@).len() <= 0xFFFF_FFFF,
        d.vault == Some(vault_of(w, mode, original, sorted_listing(l), salt, ct)),
        all_there(mode, original, l, d),
        head_of(head@, d.vault->0),
        body@ == vault_body(d.vault->0),
        call_ensures(
            cmd_decrypt,
            (Some(pw), Ok::<Vec<u8>, String>(head), Ok::<Vec<u8>, String>(body)),
            r,
        ),
    ensures
        r matches Ok(job) && gives_all_back(w, mode, original, l, d.vault->0, d, job@),
{
    lemma_plan_gives_back(w, mode, original, pinned, l, salt, ct, false, d);
    lemma_head(head@, d.vault->0);
}

/// What the window starts gives a folder back that was locked in any mode with the
/// same password.
pub proof fn window_unlocks(
    w: World,
    mode: LockMode,
    original: Tree,
    pinned: Set<Seq<char>>,
    l: Listed,
    salt: Seq<u8>,
    ct: Seq<u8>,
    head: &[u8],
    body: Vec<u8>,
    password: &[u8],
    r: Result<Job, String>,
    d: Disk,
)
    requires
        made_by_lock(w, mode, original, pinned, l, salt, ct),
        w.key == password_key(password@, salt),
        password@.len() <= 0xFFFF_FFFF,
        d.vault == Some(vault_of(w, mode, original, sorted_listing(l), salt, ct)),
        all_there(mode, original, l, d),
        head_of(head@, d.vault->0),
        body@ == vault_body(d.vault->0),
        call_ensures(decrypt, (head, Ok::<Vec<u8>, String>(body), password), r),
    ensures
        r matches Ok(job) && gives_all_back(w, mode, original, l, d.vault->0, d, job@),
{
    lemma_plan_gives_back(w, mode, original, pinned, l, salt, ct, mode != LockMode::Move, d);
    lemma_head(head@, d.vault->0);
}

/// An unlock that was interrupted is taken up again by the window with the same
/// password, and gives the folder back.
pub proof fn window_finishes_an_unlock(
    w: World,
    mode: LockMode,
    original: Tree,
    pinned: Set<Seq<char>>,
    l: Listed,
    salt: Seq<u8>,
    ct: Seq<u8>,
    head: &[u8],
    body: Vec<u8>,
    password: &[u8],
    r: Result<(PendingOp, Job), String>,
    d: Disk,
)
    requires
        made_by_lock(w, mode, original, pinned, l, salt, ct),
        w.key == password_key(password@, salt),
        password@.len() <= 0xFFFF_FFFF,
        d.vault == Some(vault_of(w, mode, original, sorted_listing(l), salt, ct)),
        all_there(mode, original, l, d),
        head_of(head@, d.vault->0),
        body@ == vault_body(d.vault->0),
        call_ensures(
            resume,
            (Some(PendingOp::Decrypt), head, Ok::<Vec<u8>, String>(body), password),
            r,
        ),
    ensures
        r matches Ok(t) && t.0 == PendingOp::Decrypt && gives_all_back(
            w,
            mode,
            original,
            l,
            d.vault->0,
            d,
            t.1@,
        ),
{
    lemma_plan_gives_back(w, mode, original, pinned, l, salt, ct, true, d);
    lemma_head(head@, d.vault->0);
}

/// A lock that was interrupted in any mode after its vault was put in place is
/// finished by what the window starts with the same password: every file is counted,
/// and no file and no directory is left but those that hold something protected.
#[verifier::rlimit(30)]
pub proof fn window_finishes_a_lock(
    w: World,
    mode: LockMode,
    original: Tree,
    pinned: Set<Seq<char>>,
    l: Listed,
    salt: Seq<u8>,
    ct: Seq<u8>,
    head: &[u8],
    body: Vec<u8>,
    password: &[u8],
    r: Result<(PendingOp, Job), String>,
    d: Disk,
)
    requires
        made_by_lock(w, mode, original, pinned, l, salt, ct),
        w.key == password_key(password@, salt),
        password@.len() <= 0xFFFF_FFFF,
        interrupted(
            mode,
            original,
            pinned,
            sorted_listing(l).files,
            vault_of(w, mode, original, sorted_listing(l), salt, ct),
            d,
        ),
        head_of(head@, d.vault->0),
        body@ == vault_body(d.vault->0),
        call_ensures(
            resume,
            (Some(PendingOp::Encrypt), head, Ok::<Vec<u8>, String>(body), password),
            r,
        ),
    ensures
        ({
            let files = sorted_listing(l).files;
            let v = d.vault->0;
            let e = finished_lock(mode, original, files, d);
            &&& r matches Ok(t)
            &&& t.0 == PendingOp::Encrypt
            &&& gets_to(
                w,
                |x: Disk| interrupted(mode, original, pinned, files, v, x),
                t.1@,
                d,
                done_with(l.files.len()),
                e,
            )
            &&& locked(mode, original, pinned, files, v, e)
            &&& e.tree == pins_only(original, pinned)
            &&& e.state is None
        }),
{
    let s = sorted_listing(l);
    let v = vault_of(w, mode, original, s, salt, ct);
    let manifest = lock_manifest(mode, s);
    vault_opens(w, mode, original, s, salt, ct, manifest);
    lemma_head(head@, v);
    interrupted_lock_can_be_finished(w, mode, original, pinned, l, salt, ct, true, d);
    lemma_done(l.files.len());
    let t = r->Ok_0;
    let plan = resume_plan(mode_byte(mode), manifest, true)->Ok_0;
    window_job_ends_as_its_plan(
        w,
        |x: Disk| interrupted(mode, original, pinned, s.files, v, x),
        t.1,
        plan.0,
        Action::ShowIcon,
        plan.1,
        w.key,
        d,
        done_with(l.files.len()),
        finished_lock(mode, original, s.files, d),
    );
}

/// The folder that a lock leaves has all that it takes to be given back, exactly as
/// it was.
pub proof fn locked_folder_is_all_there(
    mode: LockMode,
    original: Tree,
    pinned: Set<Seq<char>>,
    l: Listed,
    v: Seq<u8>,
    d: Disk,
)
    requires
        lockable(original, pinned, l),
        locked(mode, original, pinned, sorted_listing(l).files, v, d),
    ensures
        all_there(mode, original, l, d),
        forall|tree: Tree| #[trigger] got_back(original, d.tree, tree) ==> tree == original,
{
    lemma_locked_unlockable(mode, original, pinned, l, v, d);
    assert forall|tree: Tree| #[trigger] got_back(original, d.tree, tree) implies tree
        == original by {
        lemma_exactly_back(original, pinned, d.tree, tree);
    }
}

/// Does a job give back exactly the tree that was locked?
pub open spec fn gives_exactly_back(
    w: World,
    mode: LockMode,
    original: Tree,
    l: Listed,
    v: Seq<u8>,
    d: Disk,
    s: State,
) -> bool {
    exists|back: Disk|
        #[trigger] gives_back(w, mode, original, l, v, d, s, back) && back.tree == original
}

proof fn lemma_exactly(
    w: World,
    mode: LockMode,
    original: Tree,
    l: Listed,
    v: Seq<u8>,
    d: Disk,
    s: State,
)
    requires
        gives_all_back(w, mode, original, l, v, d, s),
        forall|tree: Tree| #[trigger] got_back(original, d.tree, tree) ==> tree == original,
    ensures
        gives_exactly_back(w, mode, original, l, v, d, s),
{
    let back = choose|back: Disk| #[trigger] gives_back(w, mode, original, l, v, d, s, back);
    assert(got_back(original, d.tree, back.tree));
}

/// Locking a folder and unlocking it again with the same password, from the dialogue, the
/// command line or the window, gives back exactly the tree that it held, in every mode.
#[verifier::rlimit(30)]
pub proof fn what_was_locked_comes_back(
    w: World,
    mode: LockMode,
    l: Listed,
    salt: &Salt,
    ct: Seq<u8>,
    d: Disk,
    lock: State,
    head: &[u8],
    whole: Vec<u8>,
    body: Vec<u8>,
    password: &[u8],
    pw: &str,
    s: Started,
    command: Result<Job, String>,
    window: Result<Job, String>,
)
    requires
        locks(w, mode, l, salt@, ct, d, lock),
        w.key == password_key(password@, salt@),
        encode_utf8(pw@) == password@,
        password@.len() <= 0xFFFF_FFFF,
        head_of(head@, vault_of(w, mode, d.tree, sorted_listing(l), salt@, ct)),
        whole@ == head@,
        body@ == vault_body(vault_of(w, mode, d.tree, sorted_listing(l), salt@, ct)),
        call_ensures(unlock, (salt, head, Ok::<Vec<u8>, String>(body), password), s),
        call_ensures(
            cmd_decrypt,
            (Some(pw), Ok::<Vec<u8>, String>(whole), Ok::<Vec<u8>, String>(body)),
            command,
        ),
        call_ensures(decrypt, (head, Ok::<Vec<u8>, String>(body), password), window),
    ensures
        ({
            let v = vault_of(w, mode, d.tree, sorted_listing(l), salt@, ct);
            let e = finished_lock(mode, d.tree, sorted_listing(l).files, committed(d, v));
            &&& s matches Started::Going(job) && gives_exactly_back(
                w,
                mode,
                d.tree,
                l,
                v,
                e,
                job@,
            )
            &&& command matches Ok(job) && gives_exactly_back(w, mode, d.tree, l, v, e, job@)
            &&& window matches Ok(job) && gives_exactly_back(w, mode, d.tree, l, v, e, job@)
        }),
{
    let v = vault_of(w, mode, d.tree, sorted_listing(l), salt@, ct);
    let e = finished_lock(mode, d.tree, sorted_listing(l).files, committed(d, v));
    locked_folder_is_all_there(mode, d.tree, d.pinned, l, v, e);
    dialogue_unlocks(w, mode, d.tree, d.pinned, l, salt, ct, head, body, password, s, e);
    lemma_exactly(w, mode, d.tree, l, v, e, s->Going_0@);
    command_decrypt_unlocks(
        w,
        mode,
        d.tree,
        d.pinned,
        l,
        salt@,
        ct,
        whole,
        body,
        pw,
        command,
        e,
    );
    lemma_exactly(w, mode, d.tree, l, v, e, command->Ok_0@);
    window_unlocks(w, mode, d.tree, d.pinned, l, salt@, ct, head, body, password, window, e);
    lemma_exactly(w, mode, d.tree, l, v, e, window->Ok_0@);
}

// ── with a key at hand ──

proof fn lemma_job_locks(
    w: World,
    mode: LockMode,
    l: Listed,
    salt: Seq<u8>,
    progress: bool,
    job: Job,
    d: Disk,
)
    requires
        can_lock(w, mode, l, d),
        salt.len() == 16,
        is_lock_job(mode, w.key, salt, l, progress, job),
    ensures
        locks_somehow(w, mode, l, salt, d, job@),
{
    let plan = choose|plan: Seq<Step>| #[trigger]
        is_lock_plan(mode, w.key, salt, l, progress, plan) && job@ == initial(plan, 0);
    lemma_plan_locks(w, mode, l, salt, progress, plan, d);
}

/// Full encryption locks the folder with full encryption, whether its progress is shown
/// or not.
pub proof fn full_encryption_locks(
    w: World,
    listing: &Listing,
    key: &Key,
    salt: &Salt,
    r: Result<Job, String>,
    d: Disk,
)
    requires
        call_ensures(encrypt_folder, (listing, key, salt), r) || call_ensures(
            encrypt_folder_with_progress,
            (listing, key, salt),
            r,
        ),
        w.key == key@,
        can_lock(w, LockMode::Full, listing@, d),
    ensures
        r matches Ok(job) && locks_somehow(w, LockMode::Full, listing@, salt@, d, job@),
{
    let job = r->Ok_0;
    assert(salt@.len() == 16);
    if is_lock_job(LockMode::Full, w.key, salt@, listing@, true, job) {
        lemma_job_locks(w, LockMode::Full, listing@, salt@, true, job, d);
    } else {
        lemma_job_locks(w, LockMode::Full, listing@, salt@, false, job, d);
    }
}

/// Simple encryption locks the folder in the simple mode, whether its progress is shown
/// or not.
pub proof fn simple_encryption_locks(
    w: World,
    listing: &Listing,
    key: &Key,
    salt: &Salt,
    r: Result<Job, String>,
    d: Disk,
)
    requires
        call_ensures(encrypt_folder_simple, (listing, key, salt), r) || call_ensures(
            encrypt_folder_simple_with_progress,
            (listing, key, salt),
            r,
        ),
        w.key == key@,
        can_lock(w, LockMode::Simple, listing@, d),
    ensures
        r matches Ok(job) && locks_somehow(w, LockMode::Simple, listing@, salt@, d, job@),
{
    let job = r->Ok_0;
    assert(salt@.len() == 16);
    if is_lock_job(LockMode::Simple, w.key, salt@, listing@, true, job) {
        lemma_job_locks(w, LockMode::Simple, listing@, salt@, true, job, d);
    } else {
        lemma_job_locks(w, LockMode::Simple, listing@, salt@, false, job, d);
    }
}

/// The move lock locks the folder by moving the files, whether its progress is shown or
/// not.
pub proof fn move_lock_locks(
    w: World,
    listing: &Listing,
    key: &Key,
    salt: &Salt,
    r: Result<Job, String>,
    d: Disk,
)
    requires
        call_ensures(encrypt_folder_move, (listing, key, salt), r) || call_ensures(
            encrypt_folder_move_with_progress,
            (listing, key, salt),
            r,
        ),
        w.key == key@,
        can_lock(w, LockMode::Move, listing@, d),
    ensures
        r matches Ok(job) && locks_somehow(w, LockMode::Move, listing@, salt@, d, job@),
{
    let job = r->Ok_0;
    assert(salt@.len() == 16);
    if is_lock_job(LockMode::Move, w.key, salt@, listing@, true, job) {
        lemma_job_locks(w, LockMode::Move, listing@, salt@, true, job, d);
    } else {
        lemma_job_locks(w, LockMode::Move, listing@, salt@, false, job, d);
    }
}

/// Unlocking with the key that a folder was locked under gives it back, in every mode
/// and whether the progress is shown or not.
pub proof fn unlocking_gives_back(
    w: World,
    mode: LockMode,
    original: Tree,
    pinned: Set<Seq<char>>,
    l: Listed,
    salt: Seq<u8>,
    ct: Seq<u8>,
    byte: u8,
    bytes: &[u8],
    key: &Key,
    r: Result<Job, String>,
    d: Disk,
)
    requires
        made_by_lock(w, mode, original, pinned, l, salt, ct),
        w.key == key@,
        d.vault == Some(vault_of(w, mode, original, sorted_listing(l), salt, ct)),
        all_there(mode, original, l, d),
        byte == d.vault->0[16],
        bytes@ == vault_body(d.vault->0),
        call_ensures(decrypt_folder, (byte, bytes, key), r) || call_ensures(
            decrypt_folder_with_progress,
            (byte, bytes, key),
            r,
        ),
    ensures
        r matches Ok(job) && gives_all_back(w, mode, original, l, d.vault->0, d, job@),
{
    lemma_plan_gives_back(w, mode, original, pinned, l, salt, ct, true, d);
    lemma_plan_gives_back(w, mode, original, pinned, l, salt, ct, false, d);
}

/// Finishing an interrupted lock with its key leaves the folder locked, in every mode.
#[verifier::rlimit(30)]
pub proof fn finishing_a_lock_locks(
    w: World,
    mode: LockMode,
    original: Tree,
    pinned: Set<Seq<char>>,
    l: Listed,
    salt: Seq<u8>,
    ct: Seq<u8>,
    byte: u8,
    bytes: &[u8],
    key: &Key,
    r: Result<Job, String>,
    d: Disk,
)
    requires
        made_by_lock(w, mode, original, pinned, l, salt, ct),
        w.key == key@,
        interrupted(
            mode,
            original,
            pinned,
            sorted_listing(l).files,
            vault_of(w, mode, original, sorted_listing(l), salt, ct),
            d,
        ),
        byte == d.vault->0[16],
        bytes@ == vault_body(d.vault->0),
        call_ensures(resume_encrypt, (byte, bytes, key), r),
    ensures
        ({
            let files = sorted_listing(l).files;
            let v = d.vault->0;
            let e = finished_lock(mode, original, files, d);
            &&& r matches Ok(job)
            &&& gets_to(
                w,
                |x: Disk| interrupted(mode, original, pinned, files, v, x),
                job@,
                d,
                done_with(l.files.len()),
                e,
            )
            &&& locked(mode, original, pinned, files, v, e)
            &&& e.tree == pins_only(original, pinned)
        }),
{
    let s = sorted_listing(l);
    let manifest = lock_manifest(mode, s);
    vault_opens(w, mode, original, s, salt, ct, manifest);
    interrupted_lock_can_be_finished(w, mode, original, pinned, l, salt, ct, true, d);
    lemma_done(l.files.len());
}

// ── vaults of every format ──

/// Does every front end end in this way with a vault: the dialogue, the command
/// `decrypt`, the window, and the window that takes an interrupted unlock up again?
pub open spec fn all_end_with(
    w: World,
    keeps: spec_fn(Disk) -> bool,
    d: Disk,
    end: State,
    back: Disk,
    s: Started,
    command: Result<Job, String>,
    window: Result<Job, String>,
    resumed: Result<(PendingOp, Job), String>,
) -> bool {
    &&& s matches Started::Going(job) && gets_to(w, keeps, job@, d, end, back)
    &&& command matches Ok(job) && gets_to(w, keeps, job@, d, end, back)
    &&& window matches Ok(job) && gets_to(w, keeps, job@, d, end, back)
    &&& resumed matches Ok(t) && t.0 == PendingOp::Decrypt && gets_to(
        w,
        keeps,
        t.1@,
        d,
        end,
        back,
    )
}

/// Whatever vault a folder has, in whatever format: where its manifest opens under the
/// key of the password, every front end comes to the end that its plan comes to.
#[verifier::rlimit(30)]
pub proof fn every_front_end_unlocks_what_opens(
    w: World,
    keeps: spec_fn(Disk) -> bool,
    manifest: Seq<u8>,
    end: State,
    d: Disk,
    back: Disk,
    salt: &Salt,
    head: &[u8],
    whole: Vec<u8>,
    body: Vec<u8>,
    password: &[u8],
    pw: &str,
    s: Started,
    command: Result<Job, String>,
    window: Result<Job, String>,
    resumed: Result<(PendingOp, Job), String>,
)
    requires
        head@.len() >= 17,
        head@.take(16) == salt@,
        whole@ == head@,
        encode_utf8(pw@) == password@,
        password@.len() <= 0xFFFF_FFFF,
        w.key == password_key(password@, salt@),
        open_manifest(head@[16], w.key, body@) == Ok::<Seq<u8>, Seq<char>>(manifest),
        end.outcome is Some,
        forall|progress: bool|
            gets_to(
                w,
                keeps,
                initial(
                    #[trigger] unlock_plan(
                        head@[16],
                        w.key,
                        manifest,
                        numbering(manifest, body@),
                        progress,
                    ),
                    0,
                ),
                d,
                end,
                back,
            ),
        call_ensures(unlock, (salt, head, Ok::<Vec<u8>, String>(body), password), s),
        call_ensures(
            cmd_decrypt,
            (Some(pw), Ok::<Vec<u8>, String>(whole), Ok::<Vec<u8>, String>(body)),
            command,
        ),
        call_ensures(decrypt, (head, Ok::<Vec<u8>, String>(body), password), window),
        call_ensures(
            resume,
            (Some(PendingOp::Decrypt), head, Ok::<Vec<u8>, String>(body), password),
            resumed,
        ),
    ensures
        all_end_with(w, keeps, d, end, back, s, command, window, resumed),
{
    let from = numbering(manifest, body@);
    let quiet = unlock_plan(head@[16], w.key, manifest, from, false);
    let loud = unlock_plan(head@[16], w.key, manifest, from, true);
    assert(gets_to(w, keeps, initial(quiet, 0), d, end, back));
    assert(gets_to(w, keeps, initial(loud, 0), d, end, back));
    icon_changes_nothing(w, keeps, quiet, 0, Action::HideIcon, d, end, back);
    icon_changes_nothing(w, keeps, loud, 0, Action::HideIcon, d, end, back);
}

/// A vault of the first format, whose manifest holds the encrypted contents, is given
/// back by every front end.
#[verifier::rlimit(30)]
pub proof fn first_format_is_unlocked(
    w: World,
    original: Tree,
    entries: Seq<Packed>,
    version: int,
    salt: &Salt,
    ct: Seq<u8>,
    d: Disk,
    head: &[u8],
    whole: Vec<u8>,
    body: Vec<u8>,
    password: &[u8],
    pw: &str,
    s: Started,
    command: Result<Job, String>,
    window: Result<Job, String>,
    resumed: Result<(PendingOp, Job), String>,
)
    requires
        entries.len() <= 0xFFFF_FFFF,
        forall|i: int| 0 <= i < entries.len() ==> crate::legacy::packable(#[trigger] entries[i]),
        packs(w.key, original, entries),
        seals(w.key, packed_manifest(version, entries), ct),
        d.vault == Some(salt@ + seq![0u8] + ct),
        fits(d.tree, original),
        head_of(head@, d.vault->0),
        whole@ == head@,
        body@ == d.vault->0,
        encode_utf8(pw@) == password@,
        password@.len() <= 0xFFFF_FFFF,
        w.key == password_key(password@, salt@),
        call_ensures(unlock, (salt, head, Ok::<Vec<u8>, String>(body), password), s),
        call_ensures(
            cmd_decrypt,
            (Some(pw), Ok::<Vec<u8>, String>(whole), Ok::<Vec<u8>, String>(body)),
            command,
        ),
        call_ensures(decrypt, (head, Ok::<Vec<u8>, String>(body), password), window),
        call_ensures(
            resume,
            (Some(PendingOp::Decrypt), head, Ok::<Vec<u8>, String>(body), password),
            resumed,
        ),
    ensures
        ({
            let back = packed_unlocked(original, entries, d);
            &&& all_end_with(
                w,
                rereadable(original, d.vault->0, d),
                d,
                done_with(files_in(entries, entries.len())),
                back,
                s,
                command,
                window,
                resumed,
            )
            &&& got_back(original, d.tree, back.tree)
            &&& back.vault is None
            &&& back.state is None
        }),
{
    let v = packed_vault(salt@, ct);
    let back = packed_unlocked(original, entries, d);
    let n = files_in(entries, entries.len());
    assert(salt@.len() == 16);
    assert(v =~= d.vault->0);
    assert(v.take(16) =~= salt@);
    assert(v[16] == 0);
    lemma_head(head@, v);
    lemma_done(n);
    let manifest = open_manifest(0, w.key, v)->Ok_0;
    assert forall|progress: bool|
        gets_to(
            w,
            rereadable(original, v, d),
            initial(
                #[trigger] unlock_plan(0, w.key, manifest, numbering(manifest, body@), progress),
                0,
            ),
            d,
            done_with(n),
            back,
        ) by {
        unlocking_packed_restores(
            w,
            original,
            entries,
            version,
            salt@,
            ct,
            numbering(manifest, body@),
            progress,
            d,
        );
    }
    unlocking_packed_restores(w, original, entries, version, salt@, ct, None, false, d);
    every_front_end_unlocks_what_opens(
        w,
        rereadable(original, v, d),
        manifest,
        done_with(n),
        d,
        back,
        salt,
        head,
        whole,
        body,
        password,
        pw,
        s,
        command,
        window,
        resumed,
    );
}

/// A streamed vault of an earlier version, whose metadata does not number the streams,
/// is given back by every front end.
#[verifier::rlimit(30)]
pub proof fn unnumbered_streams_are_unlocked(
    w: World,
    original: Tree,
    pinned: Set<Seq<char>>,
    l: Listed,
    version: int,
    salt: &Salt,
    ct: Seq<u8>,
    streams: Seq<Seq<u8>>,
    d: Disk,
    head: &[u8],
    whole: Vec<u8>,
    body: Vec<u8>,
    password: &[u8],
    pw: &str,
    s: Started,
    command: Result<Job, String>,
    window: Result<Job, String>,
    resumed: Result<(PendingOp, Job), String>,
)
    requires
        lockable(original, pinned, l),
        le16(version) != le16(3),
        seals(w.key, versioned_meta(version, sorted_listing(l)), ct),
        meta_fits(LockMode::Full, ct),
        hold_contents(w.key, original, sorted_listing(l).files, streams),
        d.vault == Some(stream_head(salt@, ct) + joined(streams)),
        openable(original, sorted_listing(l).files, d),
        head_of(head@, d.vault->0),
        whole@ == head@,
        body@ == vault_body(d.vault->0),
        encode_utf8(pw@) == password@,
        password@.len() <= 0xFFFF_FFFF,
        w.key == password_key(password@, salt@),
        call_ensures(unlock, (salt, head, Ok::<Vec<u8>, String>(body), password), s),
        call_ensures(
            cmd_decrypt,
            (Some(pw), Ok::<Vec<u8>, String>(whole), Ok::<Vec<u8>, String>(body)),
            command,
        ),
        call_ensures(decrypt, (head, Ok::<Vec<u8>, String>(body), password), window),
        call_ensures(
            resume,
            (Some(PendingOp::Decrypt), head, Ok::<Vec<u8>, String>(body), password),
            resumed,
        ),
    ensures
        ({
            let files = sorted_listing(l).files;
            let back = stream_unlocked(original, l, left_among(streams), d);
            &&& all_end_with(
                w,
                reopenable(original, files, d.vault->0, d),
                reopened(d),
                done_with(l.files.len()),
                back,
                s,
                command,
                window,
                resumed,
            )
            &&& got_back(original, d.tree, back.tree)
            &&& back.vault is None
            &&& back.state is None
        }),
{
    let v = d.vault->0;
    let files = sorted_listing(l).files;
    let back = stream_unlocked(original, l, left_among(streams), d);
    let n = l.files.len();
    assert(salt@.len() == 16);
    unlocking_unnumbered_streams_restores(
        w,
        original,
        pinned,
        l,
        version,
        salt@,
        ct,
        streams,
        false,
        d,
    );
    lemma_head(head@, v);
    lemma_done(n);
    let manifest = open_manifest(head@[16], w.key, body@)->Ok_0;
    assert forall|progress: bool|
        gets_to(
            w,
            reopenable(original, files, v, d),
            initial(
                #[trigger] unlock_plan(
                    head@[16],
                    w.key,
                    manifest,
                    numbering(manifest, body@),
                    progress,
                ),
                0,
            ),
            reopened(d),
            done_with(n),
            back,
        ) by {
        unlocking_unnumbered_streams_restores(
            w,
            original,
            pinned,
            l,
            version,
            salt@,
            ct,
            streams,
            progress,
            d,
        );
    }
    every_front_end_unlocks_what_opens(
        w,
        reopenable(original, files, v, d),
        manifest,
        done_with(n),
        reopened(d),
        back,
        salt,
        head,
        whole,
        body,
        password,
        pw,
        s,
        command,
        window,
        resumed,
    );
}

/// A lock with full encryption that was interrupted is finished by the window in every
/// format of the vault: nothing is left of the folder but the directories that hold
/// something protected, and the files are counted that the vault tells of.
#[verifier::rlimit(30)]
pub proof fn window_finishes_a_full_lock_of_any_format(
    w: World,
    original: Tree,
    manifest: Seq<u8>,
    n: nat,
    d: Disk,
    head: &[u8],
    body: Vec<u8>,
    password: &[u8],
    resumed: Result<(PendingOp, Job), String>,
)
    requires
        works(w),
        original.dom().finite(),
        part_of(d.tree, original),
        pins_hold(d.tree, d.pinned),
        pins_hold(original, d.pinned),
        head@.len() >= 17,
        password@.len() <= 0xFFFF_FFFF,
        w.key == password_key(password@, head@.take(16)),
        open_manifest(head@[16], w.key, body@) == Ok::<Seq<u8>, Seq<char>>(manifest),
        head@[16] == 0 && files_announced(manifest) == Ok::<nat, Seq<char>>(n) || head@[16] == 3 && ({
            let (entries, broken) = manifest_says(Magic::Full, Reading::Meta, manifest);
            broken is None && n == files_among(entries, entries.len())
        }),
        call_ensures(
            resume,
            (Some(PendingOp::Encrypt), head, Ok::<Vec<u8>, String>(body), password),
            resumed,
        ),
    ensures
        ({
            let e = Disk { tree: pins_only(original, d.pinned), state: None, ..d };
            &&& resumed matches Ok(t)
            &&& t.0 == PendingOp::Encrypt
            &&& gets_to(w, |x: Disk| true, t.1@, d, done_with(n), e)
        }),
{
    let keeps = |x: Disk| true;
    let guard = Seq::<Step>::empty();
    let plan = seq![Task::<Seq<char>, Seq<u8>>::Clear, Task::Do(Action::Unmark)];
    let e = Disk { tree: pins_only(original, d.pinned), state: None, ..d };
    assert(plan =~= seq![Task::Clear] + (guard + seq![Task::Do(Action::Unmark)]));
    lemma_clear_and_end(w, keeps, LockMode::Full, original, guard, n, d);
    lemma_done(n);
    let t = resumed->Ok_0;
    window_job_ends_as_its_plan(
        w,
        keeps,
        t.1,
        plan,
        Action::ShowIcon,
        n,
        w.key,
        d,
        done_with(n),
        e,
    );
}

/// Where files are neither in the store nor in the folder, every front end restores the
/// others, fails with a message that names those that are lost, and keeps the vault.
#[verifier::rlimit(30)]
pub proof fn every_front_end_reports_losses(
    w: World,
    mode: LockMode,
    original: Tree,
    pinned: Set<Seq<char>>,
    l: Listed,
    salt: &Salt,
    ct: Seq<u8>,
    d: Disk,
    head: &[u8],
    whole: Vec<u8>,
    body: Vec<u8>,
    password: &[u8],
    pw: &str,
    s: Started,
    command: Result<Job, String>,
    window: Result<Job, String>,
    resumed: Result<(PendingOp, Job), String>,
)
    requires
        mode != LockMode::Full,
        made_by_lock(w, mode, original, pinned, l, salt@, ct),
        d.vault == Some(vault_of(w, mode, original, sorted_listing(l), salt@, ct)),
        unlockable(original, mode_store(mode), stored_pairs(sorted_listing(l).files), d),
        !nothing_lost(mode_store(mode), stored_pairs(sorted_listing(l).files), d),
        head_of(head@, d.vault->0),
        whole@ == head@,
        body@ == d.vault->0,
        encode_utf8(pw@) == password@,
        password@.len() <= 0xFFFF_FFFF,
        w.key == password_key(password@, salt@),
        call_ensures(unlock, (salt, head, Ok::<Vec<u8>, String>(body), password), s),
        call_ensures(
            cmd_decrypt,
            (Some(pw), Ok::<Vec<u8>, String>(whole), Ok::<Vec<u8>, String>(body)),
            command,
        ),
        call_ensures(decrypt, (head, Ok::<Vec<u8>, String>(body), password), window),
        call_ensures(
            resume,
            (Some(PendingOp::Decrypt), head, Ok::<Vec<u8>, String>(body), password),
            resumed,
        ),
    ensures
        ({
            let store = mode_store(mode);
            let pairs = stored_pairs(sorted_listing(l).files);
            let lost = losses(store, pairs, marked(d), pairs.len());
            let back = survivors(store, pairs, marked(d), pairs.len());
            let e = unlocked_with_loss(original, store, sorted_listing(l).dirs, pairs, marked(d));
            let end = State {
                todo: Seq::empty(),
                count: back,
                lost,
                outcome: Some(Err(loss_message(back, lost))),
            };
            &&& lost.len() > 0
            &&& lost.len() + back == l.files.len()
            &&& all_end_with(
                w,
                restartable(original, store, pairs, d.vault->0, d),
                d,
                end,
                e,
                s,
                command,
                window,
                resumed,
            )
            &&& e.vault == d.vault
        }),
{
    let v = d.vault->0;
    let sl = sorted_listing(l);
    let store = mode_store(mode);
    let pairs = stored_pairs(sl.files);
    let lost = losses(store, pairs, marked(d), pairs.len());
    let back = survivors(store, pairs, marked(d), pairs.len());
    let e = unlocked_with_loss(original, store, sl.dirs, pairs, marked(d));
    let end = State {
        todo: Seq::empty(),
        count: back,
        lost,
        outcome: Some(Err(loss_message(back, lost))),
    };
    let manifest = lock_manifest(mode, sl);
    vault_opens(w, mode, original, sl, salt@, ct, manifest);
    lemma_head(head@, v);
    assert(vault_body(v) == v);
    assert forall|progress: bool|
        gets_to(
            w,
            restartable(original, store, pairs, v, d),
            initial(
                #[trigger] unlock_plan(
                    head@[16],
                    w.key,
                    manifest,
                    numbering(manifest, body@),
                    progress,
                ),
                0,
            ),
            d,
            end,
            e,
        ) by {
        losses_are_reported(w, mode, original, pinned, l, salt@, ct, progress, d);
    }
    losses_are_reported(w, mode, original, pinned, l, salt@, ct, false, d);
    every_front_end_unlocks_what_opens(
        w,
        restartable(original, store, pairs, v, d),
        manifest,
        end,
        d,
        e,
        salt,
        head,
        whole,
        body,
        password,
        pw,
        s,
        command,
        window,
        resumed,
    );
    assert(lost.len() > 0) by {
        lemma_losses(store, pairs, marked(d), pairs.len());
        let i = choose|i: int| 0 <= i < pairs.len() && !survives(store, #[trigger] pairs[i], d);
        assert(!survives(store, pairs[i], marked(d)));
    }
}

// ── what stops the window before it begins ──

/// The window starts nothing, and says why, where the folder holds nothing but the
/// names that it keeps for itself, where the password is too long, and where the
/// folder could not be listed.
pub proof fn window_lock_that_cannot_begin_fails(
    names: &Vec<String>,
    listing: Result<Listing, String>,
    index: i32,
    password: &[u8],
    salt: &Salt,
    r: Result<Job, String>,
)
    requires
        call_ensures(encrypt_with_salt, (names, listing, index, password, salt), r)
            || call_ensures(encrypt, (names, listing, index, password), r),
    ensures
        r is Ok ==> exists|i: int| 0 <= i < names@.len() && !kept_name(#[trigger] names@[i]@),
        (forall|i: int| 0 <= i < names@.len() ==> kept_name(#[trigger] names@[i]@)) ==> (
        r matches Err(e) && e@ == "当前文件夹没有可加密的文件。"@),
        r is Ok ==> password@.len() <= 0xFFFF_FFFF && listing is Ok,
        (exists|i: int| 0 <= i < names@.len() && !kept_name(#[trigger] names@[i]@))
            && password@.len() <= 0xFFFF_FFFF ==> (listing matches Err(e) ==> (r matches Err(f)
            && f@ == e@)),
{
    if any_packable(names@) {
        let i = choose|i: int| 0 <= i < names@.len() && !protected(#[trigger] names@[i]@);
        protected_names_are_the_kept_ones(names@[i]@);
        assert(!kept_name(names@[i]@));
    } else {
        assert forall|i: int| 0 <= i < names@.len() implies kept_name(#[trigger] names@[i]@) by {
            protected_names_are_the_kept_ones(names@[i]@);
            assert(protected(names@[i]@));
        }
    }
}

/// The window unlocks nothing, and passes the message on, where the vault could not be
/// read or does not open under the key of the password; and there is nothing to take
/// up again without a journal.
pub proof fn window_unlock_that_cannot_begin_fails(
    head: &[u8],
    body: Result<Vec<u8>, String>,
    password: &[u8],
    r: Result<Job, String>,
    resumed: Result<(PendingOp, Job), String>,
    nothing: Result<(PendingOp, Job), String>,
    op: PendingOp,
)
    requires
        call_ensures(decrypt, (head, body, password), r),
        call_ensures(resume, (Some(op), head, body, password), resumed),
        call_ensures(resume, (None::<PendingOp>, head, body, password), nothing),
    ensures
        nothing is Err,
        head@.len() < 17 || password@.len() > 0xFFFF_FFFF ==> r is Err && resumed is Err,
        head@.len() >= 17 && password@.len() <= 0xFFFF_FFFF && head@[16] <= 3 ==> {
            &&& body matches Err(e) ==> (r matches Err(f) && f@ == e@) && (resumed matches Err(f)
                && f@ == e@)
            &&& body matches Ok(bytes) ==> (open_manifest(
                head@[16],
                password_key(password@, head@.take(16)),
                bytes@,
            ) matches Err(e) ==> (r matches Err(f) && f@ == e) && (resumed matches Err(f) && f@
                == e))
        },
        resumed matches Ok(t) ==> t.0 == op,
{
}

/// A vault whose mode byte is above 3 is in no mode that is known: no lock of it is
/// finished, and the message names the byte.
pub proof fn unknown_mode_is_named(
    head: &[u8],
    body: Result<Vec<u8>, String>,
    password: &[u8],
    resumed: Result<(PendingOp, Job), String>,
)
    requires
        head@.len() >= 17,
        head@[16] > 3,
        password@.len() <= 0xFFFF_FFFF,
        call_ensures(resume, (Some(PendingOp::Encrypt), head, body, password), resumed),
    ensures
        resumed matches Err(e) && ends_with(e@, decimal(head@[16] as nat)),
{
    let text = unknown_mode(head@[16]);
    let number = decimal(head@[16] as nat);
    assert(text.skip(text.len() - number.len()) =~= number);
}

/// A lock of the first format that was interrupted is finished by the window: nothing is
/// left of the folder but the directories that hold something protected, and every file
/// of the vault is counted.
pub proof fn window_finishes_a_lock_of_the_first_format(
    w: World,
    original: Tree,
    entries: Seq<Packed>,
    version: int,
    salt: Seq<u8>,
    ct: Seq<u8>,
    d: Disk,
    head: &[u8],
    body: Vec<u8>,
    password: &[u8],
    resumed: Result<(PendingOp, Job), String>,
)
    requires
        works(w),
        original.dom().finite(),
        part_of(d.tree, original),
        pins_hold(d.tree, d.pinned),
        pins_hold(original, d.pinned),
        entries.len() <= 0xFFFF_FFFF,
        forall|i: int| 0 <= i < entries.len() ==> crate::legacy::packable(#[trigger] entries[i]),
        salt.len() == 16,
        seals(w.key, packed_manifest(version, entries), ct),
        d.vault == Some(salt + seq![0u8] + ct),
        head_of(head@, d.vault->0),
        body@ == d.vault->0,
        password@.len() <= 0xFFFF_FFFF,
        w.key == password_key(password@, salt),
        call_ensures(
            resume,
            (Some(PendingOp::Encrypt), head, Ok::<Vec<u8>, String>(body), password),
            resumed,
        ),
    ensures
        ({
            let e = Disk { tree: pins_only(original, d.pinned), state: None, ..d };
            &&& resumed matches Ok(t)
            &&& t.0 == PendingOp::Encrypt
            &&& gets_to(
                w,
                |x: Disk| true,
                t.1@,
                d,
                done_with(files_in(entries, entries.len())),
                e,
            )
        }),
{
    let v = d.vault->0;
    let manifest = packed_manifest(version, entries);
    assert(v.take(16) =~= salt);
    assert(v[16] == 0);
    assert(v.skip(17) =~= ct);
    lemma_head(head@, v);
    first_format_files(version, entries);
    assert(open_manifest(0, w.key, v) == Ok::<Seq<u8>, Seq<char>>(manifest));
    window_finishes_a_full_lock_of_any_format(
        w,
        original,
        manifest,
        files_in(entries, entries.len()),
        d,
        head,
        body,
        password,
        resumed,
    );
}

/// What the vault of a lock tells of, once it is opened: every directory in the order of
/// paths, then every file in that order, each file with the name `fl_` and its place
/// among the files where its content is in a store. It begins with the letters of its
/// mode.
pub proof fn vault_tells_of_directories_and_files(
    w: World,
    mode: LockMode,
    original: Tree,
    pinned: Set<Seq<char>>,
    l: Listed,
    salt: Seq<u8>,
    ct: Seq<u8>,
    i: int,
)
    requires
        made_by_lock(w, mode, original, pinned, l, salt, ct),
        0 <= i < l.dirs.len() + l.files.len(),
    ensures
        ({
            let v = vault_of(w, mode, original, sorted_listing(l), salt, ct);
            let entries = lock_entries(mode, sorted_listing(l));
            let magic = match mode {
                LockMode::Full => Magic::Full,
                LockMode::Simple => Magic::Simple,
                LockMode::Move => Magic::Move,
            };
            let d = l.dirs.len() as int;
            &&& open_manifest(v[16], w.key, vault_body(v)) == Ok::<Seq<u8>, Seq<char>>(
                manifest_bytes(magic, entries),
            )
            &&& entries.len() == l.dirs.len() + l.files.len()
            &&& entries[i].is_dir == (i < d)
            &&& i < d ==> entries[i].rel == path_sort(l.dirs)[i] && entries[i].stream is None
            &&& i >= d ==> entries[i].rel == path_sort(l.files)[i - d] && entries[i].stream
                == if mode == LockMode::Full {
                None
            } else {
                Some(stored_name((i - d) as nat))
            }
        }),
{
    let s = sorted_listing(l);
    sorting_keeps_listing(l.dirs);
    sorting_keeps_listing(l.files);
    vault_opens(w, mode, original, s, salt, ct, lock_manifest(mode, s));
}

} // verus!
