//! Locking and unlocking a folder.
//!
//! ## On-disk format
//! ```text
//!   [salt: 16 bytes]            Argon2 salt (plaintext)
//!   [mode: 1 byte]
//!   [manifest ciphertext...]    nonce || AES-256-GCM(manifest)
//! ```
//! In the streamed mode the ciphertext is that of the metadata, its length stands
//! in front of it, and the encrypted streams of the files follow. The streams are
//! numbered from the nonce of the metadata on, so that none can stand in the place
//! of another; metadata of an earlier version does not number them.
//!
//! In simple mode the contents of the files lie in alternate data streams of a
//! host file; in move-lock mode the files lie in a hidden container. In every mode
//! only the manifest says which file was where.

use vstd::prelude::*;
use vstd::slice::slice_subrange;

pub use crate::path::{is_protected_name, DATA_DIR, HOST_FILE, STATE_FILE, TEMP_FILE, VAULT_FILE};

use crate::crypto::{
    blob, blob_open, decrypt, encrypt, seal_error, Key, Salt, NONCE_LEN, PLAINTEXT_MAX, TAG_LEN,
};
use crate::fault::{cut_short, cut_short_text, Stage};
use crate::job::{
    initial, task_view, tasks_view, total_weight, weight_at_most_len, weightless_tasks, Action, Job,
    Part, Step, Store, Task,
};
use crate::manifest::{
    announced, entries_are_named, entries_view, files_announced, has_numbered_streams, header_count,
    manifest_bytes, manifest_file_count_full, manifest_says, numbers_streams, packed_says,
    packed_view, parse_full, parse_manifest, read_header, serialize_manifest, text_view, Entry,
    FullEntry, Magic, Packed, Reading, SimpleEntry,
};
use crate::path::{stored_name, stored_name_text, texts};
use crate::sort::{path_sort, sort_paths};
use crate::text::{
    decimal, decimal_text, from_le32, from_le56, get_le32, get_le56, le32, le56, le56_round_trip, push_le32,
};
use crate::walk::{EntryKind, Listed, Listing};

verus! {

/// Full encryption with the contents inside the manifest; only read, no longer
/// written.
pub const MODE_FULL: u8 = 0;

/// Simple encryption: contents in streams of the host file.
pub const MODE_SIMPLE: u8 = 1;

/// Move lock: files in the container.
pub const MODE_MOVE: u8 = 2;

/// Streamed full encryption: contents behind the metadata, in chunks.
pub const MODE_FULL_STREAM: u8 = 3;

/// The bytes of the plain header of a vault: salt and mode.
pub const HEADER_LEN: usize = 17;

// ── the journal ──

/// Direction of an operation in progress, kept in the journal.
#[derive(Clone, Copy, PartialEq, Eq, Debug, Structural)]
pub enum PendingOp {
    /// The folder is being locked.
    Encrypt,
    /// The folder is being unlocked.
    Decrypt,
}

/// The byte that stands for a direction: `E` or `D`.
pub open spec fn journal_byte(op: PendingOp) -> u8 {
    match op {
        PendingOp::Encrypt => 69,
        PendingOp::Decrypt => 68,
    }
}

/// The direction that a journal records.
pub open spec fn journal_says(content: Seq<u8>) -> Option<PendingOp> {
    if content.len() == 0 {
        None
    } else if content[0] == 69 {
        Some(PendingOp::Encrypt)
    } else if content[0] == 68 {
        Some(PendingOp::Decrypt)
    } else {
        None
    }
}

/// The content of the journal for an operation in progress.
pub fn write_pending(op: PendingOp) -> (content: Vec<u8>)
    ensures
        content@ == seq![journal_byte(op)],
{
    let mut content: Vec<u8> = Vec::new();
    match op {
        PendingOp::Encrypt => content.push(69),
        PendingOp::Decrypt => content.push(68),
    }
    assert(content@ =~= seq![journal_byte(op)]);
    content
}

/// The operation that a journal tells of, if the folder has one.
pub open spec fn pending_in(journal: Option<&[u8]>) -> Option<PendingOp> {
    match journal {
        Some(c) => journal_says(c@),
        None => None,
    }
}

/// The direction that a journal records, if the folder has one.
pub fn read_pending(content: Option<&[u8]>) -> (op: Option<PendingOp>)
    ensures
        op == pending_in(content),
{
    match content {
        None => None,
        Some(c) => {
            if c.len() == 0 {
                None
            } else if c[0] == 69 {
                Some(PendingOp::Encrypt)
            } else if c[0] == 68 {
                Some(PendingOp::Decrypt)
            } else {
                None
            }
        },
    }
}

/// A journal reads back as the direction that it was written for.
pub proof fn journal_round_trip(op: PendingOp)
    ensures
        journal_says(seq![journal_byte(op)]) == Some(op),
{
}

// ── the header ──

/// The salt at the front of a vault.
pub open spec fn salt_of(vault: Seq<u8>) -> Result<Seq<u8>, Seq<char>> {
    if vault.len() < 16 {
        Err(cut_short(Stage::ReadSalt))
    } else {
        Ok(vault.take(16))
    }
}

/// The mode byte of a vault.
pub open spec fn mode_of(vault: Seq<u8>) -> Result<u8, Seq<char>> {
    if vault.len() < 17 {
        Err(cut_short(Stage::ReadMode))
    } else {
        Ok(vault[16])
    }
}

/// Read the plaintext salt from the first bytes of a vault.
pub fn read_vault_salt(head: &[u8]) -> (r: Result<Salt, String>)
    ensures
        match salt_of(head@) {
            Ok(s) => r matches Ok(t) && t@ == s,
            Err(e) => r matches Err(f) && f@ == e,
        },
{
    if head.len() < 16 {
        return Err(cut_short_text(Stage::ReadSalt));
    }
    let mut salt = [0u8; 16];
    let mut i: usize = 0;
    while i < 16
        invariant
            i <= 16,
            head@.len() >= 16,
            forall|j: int| 0 <= j < i ==> salt@[j] == head@[j],
        decreases 16 - i,
    {
        salt[i] = head[i];
        i = i + 1;
    }
    assert(salt@ =~= head@.take(16));
    Ok(salt)
}

/// Read the mode byte from the first bytes of a vault (offset 16).
pub fn read_vault_mode(head: &[u8]) -> (r: Result<u8, String>)
    ensures
        match mode_of(head@) {
            Ok(m) => r matches Ok(n) && n == m,
            Err(e) => r matches Err(f) && f@ == e,
        },
{
    if head.len() < 17 {
        return Err(cut_short_text(Stage::ReadMode));
    }
    Ok(head[16])
}

/// Is there a vault file in a folder, going by what stands at its name?
pub fn vault_exists(at_name: Option<EntryKind>) -> (r: bool)
    ensures
        r == (at_name == Some(EntryKind::File)),
{
    match at_name {
        Some(EntryKind::File) => true,
        _ => false,
    }
}

/// The length of the metadata of a streamed vault, from the four bytes behind its
/// header.
pub fn meta_length(bytes: &[u8]) -> (r: Result<usize, String>)
    ensures
        if bytes@.len() < 4 {
            r matches Err(e) && e@ == cut_short(Stage::ReadMetaLength)
        } else {
            r matches Ok(n) && n == from_le32(bytes@.take(4))
        },
{
    if bytes.len() < 4 {
        return Err(cut_short_text(Stage::ReadMetaLength));
    }
    assert(bytes@.subrange(0, 4) =~= bytes@.take(4));
    Ok(get_le32(bytes, 0) as usize)
}

// ── locking ──

/// How a folder is locked.
#[derive(Clone, Copy, PartialEq, Eq, Debug, Structural)]
pub enum LockMode {
    /// Every content encrypted into the vault.
    Full,
    /// Contents in streams of the host file.
    Simple,
    /// Files in the container.
    Move,
}

/// The mode byte that a folder is locked with.
pub open spec fn mode_byte(mode: LockMode) -> u8 {
    match mode {
        LockMode::Full => MODE_FULL_STREAM,
        LockMode::Simple => MODE_SIMPLE,
        LockMode::Move => MODE_MOVE,
    }
}

/// The kind of manifest of a mode.
pub open spec fn mode_magic(mode: LockMode) -> Magic {
    match mode {
        LockMode::Full => Magic::Full,
        LockMode::Simple => Magic::Simple,
        LockMode::Move => Magic::Move,
    }
}

/// A listing in the order of paths.
pub open spec fn sorted_listing(l: Listed) -> Listed {
    Listed { dirs: path_sort(l.dirs), files: path_sort(l.files) }
}

/// The entry of a directory.
pub open spec fn dir_entry(rel: Seq<char>) -> Entry {
    Entry { rel, is_dir: true, stream: None }
}

/// The entry of the file at an index.
pub open spec fn file_entry(mode: LockMode, files: Seq<Seq<char>>, i: int) -> Entry {
    Entry {
        rel: files[i],
        is_dir: false,
        stream: match mode {
            LockMode::Full => None,
            _ => Some(stored_name(i as nat)),
        },
    }
}

/// The entries of a manifest: the directories, then the files.
pub open spec fn lock_entries(mode: LockMode, l: Listed) -> Seq<Entry> {
    l.dirs.map_values(|rel: Seq<char>| dir_entry(rel)) + Seq::new(
        l.files.len(),
        |i: int| file_entry(mode, l.files, i),
    )
}

/// The manifest of a folder.
pub open spec fn lock_manifest(mode: LockMode, l: Listed) -> Seq<u8> {
    manifest_bytes(mode_magic(mode), lock_entries(mode, l))
}

/// The progress after a file or an entry, where progress is shown.
pub open spec fn report(progress: bool, done: nat, total: nat) -> Seq<Step> {
    if progress {
        seq![Task::Do(Action::Report { done: done as usize, total: total as usize })]
    } else {
        Seq::empty()
    }
}

/// A path with the name that it is stored under.
pub type Pair = (Seq<char>, Seq<char>);

/// The files with the names that they are stored under.
pub open spec fn stored_pairs(files: Seq<Seq<char>>) -> Seq<Pair> {
    Seq::new(files.len(), |i: int| (files[i], stored_name(i as nat)))
}

/// Locking the first `k` of the files.
pub open spec fn lock_files(store: Store, pairs: Seq<Pair>, progress: bool, k: nat) -> Seq<Step>
    decreases k,
{
    if k == 0 {
        Seq::empty()
    } else {
        let (rel, name) = pairs[k - 1];
        lock_files(store, pairs, progress, (k - 1) as nat) + seq![Task::Lock { store, rel, name }]
            + report(progress, k, pairs.len())
    }
}

/// Bringing the files into a store, and removing what is left of the tree.
pub open spec fn store_files(store: Store, pairs: Seq<Pair>, progress: bool) -> Seq<Step> {
    let files = lock_files(store, pairs, progress, pairs.len());
    match store {
        Store::Streams => seq![Task::PrepareHost, Task::Do(Action::HideHost)] + files
            + seq![Task::Clear, Task::Do(Action::Unmark)],
        Store::Container => seq![Task::Do(Action::LiftGuard), Task::Do(Action::CreateData)] + files
            + seq![Task::Clear, Task::Do(Action::GuardData), Task::Do(Action::Unmark)],
    }
}

/// Writing a vault that holds a manifest alone.
pub open spec fn write_vault(salt: Seq<u8>, mode: u8, manifest_ct: Seq<u8>) -> Seq<Step> {
    seq![
        Task::Do(Action::CreateVault),
        Task::Do(Action::WriteVault { part: Part::Salt, bytes: salt }),
        Task::Do(Action::WriteVault { part: Part::Mode, bytes: seq![mode] }),
        Task::Do(Action::WriteVault { part: Part::Manifest, bytes: manifest_ct }),
        Task::Do(Action::CommitVault),
        Task::Do(Action::Mark(PendingOp::Encrypt)),
    ]
}

/// What the numbers of the streams are counted from: the nonce of the metadata.
#[verifier::opaque]
pub open spec fn numbers_from(meta_ct: Seq<u8>) -> u64 {
    from_le56(meta_ct.take(7)) as u64
}

/// The number of the stream of the entry at an index.
#[verifier::opaque]
pub open spec fn stream_number(from: u64, i: nat) -> u64 {
    ((from + 1 + i) % 0x100_0000_0000_0000) as u64
}

/// The streams of different entries have different nonces.
pub proof fn stream_numbers_differ(from: u64, i: nat, j: nat)
    requires
        i < 0x100_0000_0000_0000,
        j < 0x100_0000_0000_0000,
        i != j,
    ensures
        le56(stream_number(from, i) as int) != le56(stream_number(from, j) as int),
{
    reveal(stream_number);
    let a = stream_number(from, i);
    let b = stream_number(from, j);
    assert(a != b);
    le56_round_trip(a as int);
    le56_round_trip(b as int);
}

fn number_at(from: u64, i: usize) -> (n: u64)
    ensures
        n == stream_number(from, i as nat),
{
    proof {
        reveal(stream_number);
    }
    ((from as u128 + 1 + i as u128) % 0x100_0000_0000_0000) as u64
}

/// Encrypting the first `k` of the files into the vault; their entries begin at an
/// index.
pub open spec fn seal_files(
    from: u64,
    at: nat,
    files: Seq<Seq<char>>,
    progress: bool,
    k: nat,
) -> Seq<Step>
    decreases k,
{
    if k == 0 {
        Seq::empty()
    } else {
        let j = (k - 1) as nat;
        seal_files(from, at, files, progress, j) + seq![
            Task::Do(Action::SealFile { rel: files[k - 1], number: stream_number(from, at + j) }),
        ] + report(progress, k, files.len())
    }
}

/// The header and the metadata of a streamed vault.
pub open spec fn begin_stream_vault(salt: Seq<u8>, meta_ct: Seq<u8>) -> Seq<Step> {
    seq![
        Task::Do(Action::CreateVault),
        Task::Do(Action::WriteVault { part: Part::Salt, bytes: salt }),
        Task::Do(Action::WriteVault { part: Part::Mode, bytes: seq![MODE_FULL_STREAM] }),
        Task::Do(Action::WriteVault { part: Part::MetaLength, bytes: le32(meta_ct.len() as int) }),
        Task::Do(Action::WriteVault { part: Part::Meta, bytes: meta_ct }),
    ]
}

/// Putting a streamed vault into place, and removing the originals.
pub open spec fn end_stream_vault() -> Seq<Step> {
    seq![
        Task::Do(Action::FlushVault),
        Task::Do(Action::CommitVault),
        Task::Do(Action::Mark(PendingOp::Encrypt)),
        Task::Clear,
        Task::Do(Action::Unmark),
    ]
}

/// Locking a folder that holds the sorted listing, with its manifest encrypted.
pub open spec fn lock_plan(
    mode: LockMode,
    salt: Seq<u8>,
    manifest_ct: Seq<u8>,
    l: Listed,
    progress: bool,
) -> Seq<Step> {
    match mode {
        LockMode::Full => begin_stream_vault(salt, manifest_ct) + seal_files(
            numbers_from(manifest_ct),
            l.dirs.len(),
            l.files,
            progress,
            l.files.len(),
        ) + end_stream_vault(),
        LockMode::Simple => write_vault(salt, MODE_SIMPLE, manifest_ct) + store_files(
            Store::Streams,
            stored_pairs(l.files),
            progress,
        ),
        LockMode::Move => write_vault(salt, MODE_MOVE, manifest_ct) + store_files(
            Store::Container,
            stored_pairs(l.files),
            progress,
        ),
    }
}

/// A manifest encrypted under the nonce in front of it, which opens again.
pub open spec fn seals(key: Seq<u8>, manifest: Seq<u8>, ct: Seq<u8>) -> bool {
    &&& ct == blob(key, ct.take(12), manifest)
    &&& blob_open(key, ct) == Ok::<Seq<u8>, Seq<char>>(manifest)
    &&& ct.len() == manifest.len() + NONCE_LEN + TAG_LEN
}

/// Does a folder with this listing hold nothing to lock?
pub open spec fn nothing_listed(l: Listed) -> bool {
    l.dirs.len() == 0 && l.files.len() == 0
}

/// Is this the plan of locking a folder with the given listing? An empty folder
/// needs nothing; otherwise the manifest is encrypted under a random nonce.
pub open spec fn is_lock_plan(
    mode: LockMode,
    key: Seq<u8>,
    salt: Seq<u8>,
    l: Listed,
    progress: bool,
    plan: Seq<Step>,
) -> bool {
    let s = sorted_listing(l);
    if nothing_listed(l) {
        plan == Seq::<Step>::empty()
    } else {
        exists|ct: Seq<u8>|
            #![trigger seals(key, lock_manifest(mode, s), ct)]
            seals(key, lock_manifest(mode, s), ct) && plan == lock_plan(mode, salt, ct, s, progress)
    }
}

/// Can the manifest of a folder with this listing be encrypted?
pub open spec fn manifest_fits(mode: LockMode, l: Listed) -> bool {
    nothing_listed(l) || lock_manifest(mode, sorted_listing(l)).len() <= PLAINTEXT_MAX
}

fn put(tasks: &mut Vec<Task<String, Vec<u8>>>, t: Task<String, Vec<u8>>)
    ensures
        tasks_view(final(tasks)@) == tasks_view(old(tasks)@).push(task_view(t)),
{
    tasks.push(t);
    assert(tasks_view(tasks@) =~= tasks_view(old(tasks)@).push(task_view(t)));
}

fn put_report(tasks: &mut Vec<Task<String, Vec<u8>>>, progress: bool, done: usize, total: usize)
    ensures
        tasks_view(final(tasks)@) == tasks_view(old(tasks)@) + report(
            progress,
            done as nat,
            total as nat,
        ),
{
    if progress {
        put(tasks, Task::Do(Action::Report { done, total }));
    }
    assert(tasks_view(tasks@) =~= tasks_view(old(tasks)@) + report(
        progress,
        done as nat,
        total as nat,
    ));
}

fn copy_slice(b: &[u8]) -> (r: Vec<u8>)
    ensures
        r@ == b@,
{
    let mut r: Vec<u8> = Vec::new();
    r.extend_from_slice(b);
    assert(r@ =~= b@);
    r
}

fn build_entries(mode: LockMode, l: &Listing) -> (entries: Vec<SimpleEntry>)
    ensures
        entries_view(entries@) == lock_entries(mode, l@),
{
    let mut entries: Vec<SimpleEntry> = Vec::new();
    let ghost all = lock_entries(mode, l@);
    let mut i: usize = 0;
    while i < l.dirs.len()
        invariant
            i <= l.dirs@.len(),
            all == lock_entries(mode, l@),
            entries_view(entries@) =~= all.take(i as int),
        decreases l.dirs.len() - i,
    {
        let e = SimpleEntry { rel: l.dirs[i].clone(), is_dir: true, stream: None };
        let ghost before = entries@;
        let ghost seen = e@;
        assert(seen == all[i as int]);
        entries.push(e);
        assert(entries_view(entries@) =~= entries_view(before).push(seen));
        assert(all.take(i + 1) =~= all.take(i as int).push(seen));
        i = i + 1;
    }
    let mut j: usize = 0;
    while j < l.files.len()
        invariant
            i == l.dirs@.len(),
            j <= l.files@.len(),
            all == lock_entries(mode, l@),
            entries_view(entries@) =~= all.take(i + j),
        decreases l.files.len() - j,
    {
        let stream = match mode {
            LockMode::Full => None,
            _ => Some(stored_name_text(j)),
        };
        let e = SimpleEntry { rel: l.files[j].clone(), is_dir: false, stream };
        let ghost before = entries@;
        let ghost seen = e@;
        assert(seen == file_entry(mode, l@.files, j as int));
        assert(seen == all[i + j]);
        entries.push(e);
        assert(entries_view(entries@) =~= entries_view(before).push(seen));
        assert(all.take(i + j + 1) =~= all.take(i + j).push(seen));
        j = j + 1;
    }
    assert(all.take(i + j) =~= all);
    entries
}

/// The texts of pairs of strings.
pub open spec fn pairs_view(list: Seq<(String, String)>) -> Seq<Pair> {
    list.map_values(|p: (String, String)| (p.0@, p.1@))
}

fn put_locks(tasks: &mut Vec<Task<String, Vec<u8>>>, store: Store, pairs: &Vec<(String, String)>, progress: bool)
    ensures
        tasks_view(final(tasks)@) == tasks_view(old(tasks)@) + lock_files(
            store,
            pairs_view(pairs@),
            progress,
            pairs@.len(),
        ),
{
    let ghost all = pairs_view(pairs@);
    let ghost start = tasks_view(tasks@);
    let total: usize = pairs.len();
    let mut i: usize = 0;
    assert(start + lock_files(store, all, progress, 0) =~= start);
    while i < total
        invariant
            i <= total,
            total == pairs@.len(),
            all == pairs_view(pairs@),
            tasks_view(tasks@) == start + lock_files(store, all, progress, i as nat),
        decreases total - i,
    {
        put(tasks, Task::Lock { store, rel: pairs[i].0.clone(), name: pairs[i].1.clone() });
        put_report(tasks, progress, i + 1, total);
        proof {
            assert(all[i as int] == (pairs@[i as int].0@, pairs@[i as int].1@));
            assert(tasks_view(tasks@) =~= start + lock_files(store, all, progress, (i + 1) as nat));
        }
        i = i + 1;
    }
}

fn put_store_files(tasks: &mut Vec<Task<String, Vec<u8>>>, store: Store, pairs: &Vec<(String, String)>, progress: bool)
    ensures
        tasks_view(final(tasks)@) == tasks_view(old(tasks)@) + store_files(
            store,
            pairs_view(pairs@),
            progress,
        ),
{
    let ghost start = tasks_view(tasks@);
    match store {
        Store::Streams => {
            put(tasks, Task::PrepareHost);
            put(tasks, Task::Do(Action::HideHost));
        },
        Store::Container => {
            put(tasks, Task::Do(Action::LiftGuard));
            put(tasks, Task::Do(Action::CreateData));
        },
    }
    put_locks(tasks, store, pairs, progress);
    put(tasks, Task::Clear);
    match store {
        Store::Streams => {},
        Store::Container => {
            put(tasks, Task::Do(Action::GuardData));
        },
    }
    put(tasks, Task::Do(Action::Unmark));
    assert(tasks_view(tasks@) =~= start + store_files(store, pairs_view(pairs@), progress));
}

fn put_seals(tasks: &mut Vec<Task<String, Vec<u8>>>, from: u64, l: &Listing, progress: bool)
    ensures
        tasks_view(final(tasks)@) == tasks_view(old(tasks)@) + seal_files(
            from,
            l@.dirs.len(),
            l@.files,
            progress,
            l@.files.len(),
        ),
{
    let ghost start = tasks_view(tasks@);
    let ghost dirs = l@.dirs.len();
    let total: usize = l.files.len();
    let mut number: u64 = number_at(from, l.dirs.len());
    proof {
        reveal(stream_number);
    }
    let mut i: usize = 0;
    assert(start + seal_files(from, dirs, l@.files, progress, 0) =~= start);
    while i < total
        invariant
            i <= total,
            total == l.files@.len(),
            dirs == l@.dirs.len(),
            number == stream_number(from, dirs + i as nat),
            tasks_view(tasks@) == start + seal_files(from, dirs, l@.files, progress, i as nat),
        decreases total - i,
    {
        put(tasks, Task::Do(Action::SealFile { rel: l.files[i].clone(), number }));
        put_report(tasks, progress, i + 1, total);
        assert(tasks_view(tasks@) =~= start + seal_files(
            from,
            dirs,
            l@.files,
            progress,
            (i + 1) as nat,
        ));
        proof {
            reveal(stream_number);
        }
        number = (number + 1) % 0x100_0000_0000_0000;
        i = i + 1;
    }
}

/// The tasks of locking a folder with a sorted listing, given its encrypted
/// manifest.
pub fn lock_tasks_sealed(
    mode: LockMode,
    salt: &Salt,
    manifest_ct: &[u8],
    l: &Listing,
    progress: bool,
) -> (tasks: Vec<Task<String, Vec<u8>>>)
    requires
        mode == LockMode::Full ==> manifest_ct@.len() >= NONCE_LEN,
    ensures
        tasks_view(tasks@) == lock_plan(mode, salt@, manifest_ct@, l@, progress),
{
    let mut tasks: Vec<Task<String, Vec<u8>>> = Vec::new();
    put(&mut tasks, Task::Do(Action::CreateVault));
    put(
        &mut tasks,
        Task::Do(Action::WriteVault { part: Part::Salt, bytes: copy_slice(salt.as_slice()) }),
    );
    let byte: u8 = match mode {
        LockMode::Full => MODE_FULL_STREAM,
        LockMode::Simple => MODE_SIMPLE,
        LockMode::Move => MODE_MOVE,
    };
    let mut mode_bytes: Vec<u8> = Vec::new();
    mode_bytes.push(byte);
    assert(mode_bytes@ =~= seq![byte]);
    put(&mut tasks, Task::Do(Action::WriteVault { part: Part::Mode, bytes: mode_bytes }));
    match mode {
        LockMode::Full => {
            let mut length: Vec<u8> = Vec::new();
            let n: usize = manifest_ct.len();
            #[verifier::truncate]
            let short: u32 = n as u32;
            proof {
                crate::manifest::lemma_le32_of_truncated(n);
            }
            push_le32(&mut length, short);
            assert(length@ =~= le32(manifest_ct@.len() as int));
            put(&mut tasks, Task::Do(Action::WriteVault { part: Part::MetaLength, bytes: length }));
            put(
                &mut tasks,
                Task::Do(Action::WriteVault { part: Part::Meta, bytes: copy_slice(manifest_ct) }),
            );
            let ghost start = tasks_view(tasks@);
            assert(start =~= begin_stream_vault(salt@, manifest_ct@));
            let from: u64 = get_le56(manifest_ct);
            assert(from == numbers_from(manifest_ct@)) by {
                reveal(numbers_from);
            }
            put_seals(&mut tasks, from, l, progress);
            put(&mut tasks, Task::Do(Action::FlushVault));
            put(&mut tasks, Task::Do(Action::CommitVault));
            put(&mut tasks, Task::Do(Action::Mark(PendingOp::Encrypt)));
            put(&mut tasks, Task::Clear);
            put(&mut tasks, Task::Do(Action::Unmark));
        },
        _ => {
            put(
                &mut tasks,
                Task::Do(
                    Action::WriteVault { part: Part::Manifest, bytes: copy_slice(manifest_ct) },
                ),
            );
            put(&mut tasks, Task::Do(Action::CommitVault));
            put(&mut tasks, Task::Do(Action::Mark(PendingOp::Encrypt)));
            assert(tasks_view(tasks@) =~= write_vault(salt@, byte, manifest_ct@));
            let mut pairs: Vec<(String, String)> = Vec::new();
            let mut i: usize = 0;
            while i < l.files.len()
                invariant
                    i <= l.files@.len(),
                    pairs_view(pairs@) =~= stored_pairs(l@.files).take(i as int),
                decreases l.files.len() - i,
            {
                let pair = (l.files[i].clone(), stored_name_text(i));
                let ghost before = pairs@;
                pairs.push(pair);
                proof {
                    assert(pairs_view(pairs@) =~= pairs_view(before).push((pair.0@, pair.1@)));
                    assert((pair.0@, pair.1@) == stored_pairs(l@.files)[i as int]);
                }
                i = i + 1;
            }
            assert(pairs_view(pairs@) =~= stored_pairs(l@.files));
            let store = match mode {
                LockMode::Simple => Store::Streams,
                _ => Store::Container,
            };
            put_store_files(&mut tasks, store, &pairs, progress);
        },
    }
    assert(tasks_view(tasks@) =~= lock_plan(mode, salt@, manifest_ct@, l@, progress));
    tasks
}

/// The tasks of locking a folder: sort what was listed, encrypt the manifest, and
/// plan the rest. It fails only where the manifest is too long for one encryption.
pub fn lock_tasks(mode: LockMode, listing: &Listing, key: &Key, salt: &Salt, progress: bool) -> (r:
    Result<Vec<Task<String, Vec<u8>>>, String>)
    ensures
        r is Ok <==> manifest_fits(mode, listing@),
        r matches Ok(tasks) ==> is_lock_plan(
            mode,
            key@,
            salt@,
            listing@,
            progress,
            tasks_view(tasks@),
        ),
        r matches Err(e) ==> e@ == seal_error(),
{
    if listing.dirs.len() == 0 && listing.files.len() == 0 {
        let tasks: Vec<Task<String, Vec<u8>>> = Vec::new();
        assert(tasks_view(tasks@) =~= Seq::empty());
        return Ok(tasks);
    }
    let sorted = Listing { dirs: sort_paths(&listing.dirs), files: sort_paths(&listing.files) };
    assert(sorted@ =~= sorted_listing(listing@));
    let entries = build_entries(mode, &sorted);
    let magic = match mode {
        LockMode::Full => Magic::Full,
        LockMode::Simple => Magic::Simple,
        LockMode::Move => Magic::Move,
    };
    let manifest = serialize_manifest(magic, &entries);
    let ct = match encrypt(key, manifest.as_slice()) {
        Ok(ct) => ct,
        Err(e) => {
            return Err(e);
        },
    };
    assert(seals(key@, lock_manifest(mode, sorted_listing(listing@)), ct@));
    Ok(lock_tasks_sealed(mode, salt, ct.as_slice(), &sorted, progress))
}

/// Is this a fresh job of locking a folder with the given listing?
pub open spec fn is_lock_job(
    mode: LockMode,
    key: Seq<u8>,
    salt: Seq<u8>,
    l: Listed,
    progress: bool,
    job: Job,
) -> bool {
    &&& job.wf()
    &&& exists|plan: Seq<Step>| #[trigger]
        is_lock_plan(mode, key, salt, l, progress, plan) && job@ == initial(plan, 0)
    &&& job@.outcome is None ==> job.key() == key
}

fn lock_job(mode: LockMode, listing: &Listing, key: &Key, salt: &Salt, progress: bool) -> (r: Result<
    Job,
    String,
>)
    ensures
        r is Ok <==> manifest_fits(mode, listing@),
        r matches Ok(job) ==> is_lock_job(mode, key@, salt@, listing@, progress, job),
        r matches Err(e) ==> e@ == seal_error(),
{
    match lock_tasks(mode, listing, key, salt, progress) {
        Ok(tasks) => {
            proof {
                weight_at_most_len(tasks_view(tasks@));
                assert(tasks.len() <= usize::MAX);
            }
            Ok(Job::start(key, tasks, 0))
        },
        Err(e) => Err(e),
    }
}

/// Full encryption: every file is encrypted straight into the vault.
pub fn encrypt_folder(listing: &Listing, key: &Key, salt: &Salt) -> (r: Result<Job, String>)
    ensures
        r is Ok <==> manifest_fits(LockMode::Full, listing@),
        r matches Ok(job) ==> is_lock_job(LockMode::Full, key@, salt@, listing@, false, job),
        r matches Err(e) ==> e@ == seal_error(),
{
    lock_job(LockMode::Full, listing, key, salt, false)
}

/// Same as [`encrypt_folder`], with the progress shown after each file.
pub fn encrypt_folder_with_progress(listing: &Listing, key: &Key, salt: &Salt) -> (r: Result<
    Job,
    String,
>)
    ensures
        r is Ok <==> manifest_fits(LockMode::Full, listing@),
        r matches Ok(job) ==> is_lock_job(LockMode::Full, key@, salt@, listing@, true, job),
        r matches Err(e) ==> e@ == seal_error(),
{
    lock_job(LockMode::Full, listing, key, salt, true)
}

/// Simple encryption: each file's bytes go into a stream of the host file, and
/// the original is deleted.
pub fn encrypt_folder_simple(listing: &Listing, key: &Key, salt: &Salt) -> (r: Result<Job, String>)
    ensures
        r is Ok <==> manifest_fits(LockMode::Simple, listing@),
        r matches Ok(job) ==> is_lock_job(LockMode::Simple, key@, salt@, listing@, false, job),
        r matches Err(e) ==> e@ == seal_error(),
{
    lock_job(LockMode::Simple, listing, key, salt, false)
}

/// Same as [`encrypt_folder_simple`], with the progress shown after each file.
pub fn encrypt_folder_simple_with_progress(listing: &Listing, key: &Key, salt: &Salt) -> (r: Result<
    Job,
    String,
>)
    ensures
        r is Ok <==> manifest_fits(LockMode::Simple, listing@),
        r matches Ok(job) ==> is_lock_job(LockMode::Simple, key@, salt@, listing@, true, job),
        r matches Err(e) ==> e@ == seal_error(),
{
    lock_job(LockMode::Simple, listing, key, salt, true)
}

/// Move lock: every file is moved into the hidden container.
pub fn encrypt_folder_move(listing: &Listing, key: &Key, salt: &Salt) -> (r: Result<Job, String>)
    ensures
        r is Ok <==> manifest_fits(LockMode::Move, listing@),
        r matches Ok(job) ==> is_lock_job(LockMode::Move, key@, salt@, listing@, false, job),
        r matches Err(e) ==> e@ == seal_error(),
{
    lock_job(LockMode::Move, listing, key, salt, false)
}

/// Same as [`encrypt_folder_move`], with the progress shown after each file.
pub fn encrypt_folder_move_with_progress(listing: &Listing, key: &Key, salt: &Salt) -> (r: Result<
    Job,
    String,
>)
    ensures
        r is Ok <==> manifest_fits(LockMode::Move, listing@),
        r matches Ok(job) ==> is_lock_job(LockMode::Move, key@, salt@, listing@, true, job),
        r matches Err(e) ==> e@ == seal_error(),
{
    lock_job(LockMode::Move, listing, key, salt, true)
}

// ── unlocking ──

/// Restoring an entry out of a store.
pub open spec fn unlock_entry(store: Store, e: Entry) -> Seq<Step> {
    if e.is_dir {
        seq![Task::Do(Action::MakeDir { rel: e.rel })]
    } else {
        seq![Task::Unlock { store, rel: e.rel, name: e.stream->0 }]
    }
}

/// Restoring the first `k` entries out of a store.
pub open spec fn unlock_entries(
    store: Store,
    entries: Seq<Entry>,
    progress: bool,
    total: nat,
    k: nat,
) -> Seq<Step>
    decreases k,
{
    if k == 0 {
        Seq::empty()
    } else {
        unlock_entries(store, entries, progress, total, (k - 1) as nat) + unlock_entry(
            store,
            entries[k - 1],
        ) + report(progress, k, total)
    }
}

/// What the streams of a vault are counted from, if its metadata numbers them.
pub open spec fn numbering(meta: Seq<u8>, meta_ct: Seq<u8>) -> Option<u64> {
    if numbers_streams(meta) {
        Some(numbers_from(meta_ct))
    } else {
        None
    }
}

/// The number that the stream of the entry at an index must have, if streams are
/// numbered.
pub open spec fn number_due(from: Option<u64>, i: nat) -> Option<u64> {
    match from {
        Some(first) => Some(stream_number(first, i)),
        None => None,
    }
}

/// Restoring an entry out of the streams of the vault.
pub open spec fn open_entry(due: Option<u64>, e: Entry) -> Seq<Step> {
    if e.is_dir {
        seq![Task::Do(Action::MakeDir { rel: e.rel })]
    } else {
        seq![
            Task::Do(Action::MakeParents { rel: e.rel }),
            Task::Do(Action::OpenFile { rel: e.rel, due }),
        ]
    }
}

/// Restoring the first `k` entries out of the streams of the vault.
pub open spec fn open_entries(
    from: Option<u64>,
    entries: Seq<Entry>,
    progress: bool,
    k: nat,
) -> Seq<Step>
    decreases k,
{
    if k == 0 {
        Seq::empty()
    } else {
        let j = (k - 1) as nat;
        open_entries(from, entries, progress, j) + open_entry(number_due(from, j), entries[k - 1])
            + report(progress, k, entries.len())
    }
}

/// Restoring an entry whose content the manifest holds.
pub open spec fn put_entry(key: Seq<u8>, e: Packed) -> Seq<Step> {
    if e.is_dir {
        seq![Task::Do(Action::MakeDir { rel: e.rel })]
    } else {
        seq![
            Task::Do(Action::MakeParents { rel: e.rel }),
            match blob_open(key, e.data) {
                Ok(bytes) => Task::Do(Action::PutFile { rel: e.rel, bytes }),
                Err(m) => Task::Fail(m),
            },
        ]
    }
}

/// Restoring the first `k` entries whose contents the manifest holds.
pub open spec fn put_entries(
    key: Seq<u8>,
    entries: Seq<Packed>,
    progress: bool,
    total: nat,
    k: nat,
) -> Seq<Step>
    decreases k,
{
    if k == 0 {
        Seq::empty()
    } else {
        put_entries(key, entries, progress, total, (k - 1) as nat) + put_entry(key, entries[k - 1])
            + report(progress, k, total)
    }
}

/// Failing where the manifest is broken.
pub open spec fn fail_if(broken: Option<Seq<char>>) -> Seq<Step> {
    match broken {
        Some(m) => seq![Task::Fail(m)],
        None => Seq::empty(),
    }
}

/// Restoring out of a store, as far as the manifest can be read.
pub open spec fn restore_from_store(
    store: Store,
    magic: Magic,
    reading: Reading,
    manifest: Seq<u8>,
    progress: bool,
) -> Seq<Step> {
    let (entries, broken) = manifest_says(magic, reading, manifest);
    unlock_entries(store, entries, progress, announced(magic, manifest), entries.len()) + fail_if(
        broken,
    ) + seq![Task::Settle(store)]
}

/// The message for a mode that is not known.
pub open spec fn unknown_mode(mode: u8) -> Seq<char> {
    "未知的 vault 模式: "@ + decimal(mode as nat)
}

/// Restoring what a manifest names, by the mode of the vault; `from` is what streams
/// are counted from, if they are numbered.
pub open spec fn restore(
    mode: u8,
    key: Seq<u8>,
    manifest: Seq<u8>,
    from: Option<u64>,
    progress: bool,
) -> Seq<Step> {
    if mode == MODE_FULL_STREAM {
        let (entries, broken) = manifest_says(Magic::Full, Reading::Meta, manifest);
        match broken {
            Some(m) => seq![Task::Fail(m)],
            None => open_entries(from, entries, progress, entries.len()),
        }
    } else if mode == MODE_FULL {
        let (entries, broken) = packed_says(manifest);
        put_entries(key, entries, progress, announced(Magic::Full, manifest), entries.len())
            + fail_if(broken)
    } else if mode == MODE_SIMPLE {
        restore_from_store(Store::Streams, Magic::Simple, Reading::Streams, manifest, progress)
    } else if mode == MODE_MOVE {
        match header_count(Magic::Move, manifest) {
            Err(m) => seq![Task::Fail(m)],
            Ok(_) => seq![Task::Do(Action::LiftGuard)] + restore_from_store(
                Store::Container,
                Magic::Move,
                Reading::Container,
                manifest,
                progress,
            ),
        }
    } else {
        seq![Task::Fail(unknown_mode(mode))]
    }
}

/// The decrypted manifest of a vault. `bytes` is the encrypted metadata where the
/// mode is the streamed one, and the whole vault file otherwise.
pub open spec fn open_manifest(mode: u8, key: Seq<u8>, bytes: Seq<u8>) -> Result<
    Seq<u8>,
    Seq<char>,
> {
    if mode == MODE_FULL_STREAM {
        blob_open(key, bytes)
    } else if bytes.len() < 29 {
        Err("vault 数据损坏"@)
    } else {
        blob_open(key, bytes.skip(17))
    }
}

/// The tasks of unlocking a folder: mark the direction, restore, and remove the
/// vault and the journal.
pub open spec fn unlock_plan(
    mode: u8,
    key: Seq<u8>,
    manifest: Seq<u8>,
    from: Option<u64>,
    progress: bool,
) -> Seq<Step> {
    seq![Task::Do(Action::Mark(PendingOp::Decrypt))] + restore(mode, key, manifest, from, progress)
        + seq![Task::Do(Action::DropVault), Task::Do(Action::Unmark)]
}

fn put_unlock_entries(
    tasks: &mut Vec<Task<String, Vec<u8>>>,
    store: Store,
    entries: &Vec<SimpleEntry>,
    progress: bool,
    total: usize,
)
    requires
        forall|i: int|
            0 <= i < entries@.len() ==> (#[trigger] entries@[i]).is_dir || entries@[i].stream is Some,
    ensures
        tasks_view(final(tasks)@) == tasks_view(old(tasks)@) + unlock_entries(
            store,
            entries_view(entries@),
            progress,
            total as nat,
            entries@.len(),
        ),
{
    let ghost all = entries_view(entries@);
    let ghost start = tasks_view(tasks@);
    let mut i: usize = 0;
    assert(start + unlock_entries(store, all, progress, total as nat, 0) =~= start);
    while i < entries.len()
        invariant
            i <= entries@.len(),
            all == entries_view(entries@),
            forall|j: int|
                0 <= j < entries@.len() ==> (#[trigger] entries@[j]).is_dir
                    || entries@[j].stream is Some,
            tasks_view(tasks@) == start + unlock_entries(
                store,
                all,
                progress,
                total as nat,
                i as nat,
            ),
        decreases entries.len() - i,
    {
        let e = &entries[i];
        let rel = e.rel.clone();
        if e.is_dir {
            put(tasks, Task::Do(Action::MakeDir { rel }));
        } else {
            let name = match &e.stream {
                Some(name) => name.clone(),
                None => String::new(),
            };
            put(tasks, Task::Unlock { store, rel, name });
        }
        put_report(tasks, progress, i + 1, total);
        proof {
            assert(all[i as int] == e@);
            assert(tasks_view(tasks@) =~= start + unlock_entries(
                store,
                all,
                progress,
                total as nat,
                (i + 1) as nat,
            ));
        }
        i = i + 1;
    }
}

fn put_open_entries(
    tasks: &mut Vec<Task<String, Vec<u8>>>,
    from: Option<u64>,
    entries: &Vec<SimpleEntry>,
    progress: bool,
)
    ensures
        tasks_view(final(tasks)@) == tasks_view(old(tasks)@) + open_entries(
            from,
            entries_view(entries@),
            progress,
            entries@.len(),
        ),
{
    let ghost all = entries_view(entries@);
    let ghost start = tasks_view(tasks@);
    let total: usize = entries.len();
    let mut i: usize = 0;
    assert(start + open_entries(from, all, progress, 0) =~= start);
    while i < entries.len()
        invariant
            i <= entries@.len(),
            total == entries@.len(),
            all == entries_view(entries@),
            tasks_view(tasks@) == start + open_entries(from, all, progress, i as nat),
        decreases entries.len() - i,
    {
        let e = &entries[i];
        let rel = e.rel.clone();
        if e.is_dir {
            put(tasks, Task::Do(Action::MakeDir { rel }));
        } else {
            put(tasks, Task::Do(Action::MakeParents { rel: rel.clone() }));
            let due: Option<u64> = match from {
                Some(first) => Some(number_at(first, i)),
                None => None,
            };
            put(tasks, Task::Do(Action::OpenFile { rel, due }));
        }
        put_report(tasks, progress, i + 1, total);
        proof {
            assert(all[i as int] == e@);
            assert(tasks_view(tasks@) =~= start + open_entries(from, all, progress, (i + 1) as nat));
        }
        i = i + 1;
    }
}

fn put_put_entries(
    tasks: &mut Vec<Task<String, Vec<u8>>>,
    key: &Key,
    entries: &Vec<FullEntry>,
    progress: bool,
    total: usize,
)
    ensures
        tasks_view(final(tasks)@) == tasks_view(old(tasks)@) + put_entries(
            key@,
            packed_view(entries@),
            progress,
            total as nat,
            entries@.len(),
        ),
{
    let ghost all = packed_view(entries@);
    let ghost start = tasks_view(tasks@);
    let mut i: usize = 0;
    assert(start + put_entries(key@, all, progress, total as nat, 0) =~= start);
    while i < entries.len()
        invariant
            i <= entries@.len(),
            all == packed_view(entries@),
            tasks_view(tasks@) == start + put_entries(
                key@,
                all,
                progress,
                total as nat,
                i as nat,
            ),
        decreases entries.len() - i,
    {
        let e = &entries[i];
        let rel = e.rel.clone();
        if e.is_dir {
            put(tasks, Task::Do(Action::MakeDir { rel }));
        } else {
            put(tasks, Task::Do(Action::MakeParents { rel: rel.clone() }));
            match decrypt(key, e.data.as_slice()) {
                Ok(bytes) => {
                    put(tasks, Task::Do(Action::PutFile { rel, bytes }));
                },
                Err(m) => {
                    put(tasks, Task::Fail(m));
                },
            }
        }
        put_report(tasks, progress, i + 1, total);
        proof {
            assert(all[i as int] == e@);
            assert(tasks_view(tasks@) =~= start + put_entries(
                key@,
                all,
                progress,
                total as nat,
                (i + 1) as nat,
            ));
        }
        i = i + 1;
    }
}

fn put_fail_if(tasks: &mut Vec<Task<String, Vec<u8>>>, broken: Option<String>)
    ensures
        tasks_view(final(tasks)@) == tasks_view(old(tasks)@) + fail_if(text_view(broken)),
{
    let ghost start = tasks_view(tasks@);
    let ghost b = text_view(broken);
    match broken {
        Some(m) => {
            put(tasks, Task::Fail(m));
        },
        None => {},
    }
    assert(tasks_view(tasks@) =~= start + fail_if(b));
}

proof fn lemma_parsed_named(
    magic: Magic,
    reading: Reading,
    manifest: Seq<u8>,
    entries: Seq<SimpleEntry>,
)
    requires
        reading == Reading::Streams || reading == Reading::Container,
        entries_view(entries) == manifest_says(magic, reading, manifest).0,
    ensures
        forall|i: int|
            0 <= i < entries.len() ==> (#[trigger] entries[i]).is_dir || entries[i].stream is Some,
{
    let all = entries_view(entries);
    assert forall|i: int| 0 <= i < entries.len() implies (#[trigger] entries[i]).is_dir
        || entries[i].stream is Some by {
        entries_are_named(magic, reading, manifest, i);
        assert(all[i] == entries[i]@);
    }
}

#[verifier::rlimit(30)]
fn put_restore_from_store(
    tasks: &mut Vec<Task<String, Vec<u8>>>,
    store: Store,
    magic: Magic,
    reading: Reading,
    manifest: &[u8],
    progress: bool,
)
    requires
        reading == Reading::Streams || reading == Reading::Container,
    ensures
        tasks_view(final(tasks)@) == tasks_view(old(tasks)@) + restore_from_store(
            store,
            magic,
            reading,
            manifest@,
            progress,
        ),
{
    let ghost start = tasks_view(tasks@);
    let parsed = parse_manifest(magic, reading, manifest);
    proof {
        lemma_parsed_named(magic, reading, manifest@, parsed.entries@);
    }
    put_unlock_entries(tasks, store, &parsed.entries, progress, parsed.announced as usize);
    put_fail_if(tasks, parsed.broken);
    put(tasks, Task::Settle(store));
    assert(tasks_view(tasks@) =~= start + restore_from_store(
        store,
        magic,
        reading,
        manifest@,
        progress,
    ));
}

fn unknown_mode_text(mode: u8) -> (s: String)
    ensures
        s@ == unknown_mode(mode),
{
    String::from_str("未知的 vault 模式: ").concat(decimal_text(mode as usize).as_str())
}

fn put_restore(
    tasks: &mut Vec<Task<String, Vec<u8>>>,
    mode: u8,
    key: &Key,
    manifest: &[u8],
    from: Option<u64>,
    progress: bool,
)
    ensures
        tasks_view(final(tasks)@) == tasks_view(old(tasks)@) + restore(
            mode,
            key@,
            manifest@,
            from,
            progress,
        ),
{
    let ghost start = tasks_view(tasks@);
    if mode == MODE_FULL_STREAM {
        let parsed = parse_manifest(Magic::Full, Reading::Meta, manifest);
        match parsed.broken {
            Some(m) => {
                put(tasks, Task::Fail(m));
            },
            None => {
                put_open_entries(tasks, from, &parsed.entries, progress);
            },
        }
    } else if mode == MODE_FULL {
        let parsed = parse_full(manifest);
        put_put_entries(tasks, key, &parsed.entries, progress, parsed.announced as usize);
        put_fail_if(tasks, parsed.broken);
    } else if mode == MODE_SIMPLE {
        put_restore_from_store(
            tasks,
            Store::Streams,
            Magic::Simple,
            Reading::Streams,
            manifest,
            progress,
        );
    } else if mode == MODE_MOVE {
        match read_header(Magic::Move, manifest) {
            Err(m) => {
                put(tasks, Task::Fail(m));
            },
            Ok(_) => {
                put(tasks, Task::Do(Action::LiftGuard));
                put_restore_from_store(
                    tasks,
                    Store::Container,
                    Magic::Move,
                    Reading::Container,
                    manifest,
                    progress,
                );
            },
        }
    } else {
        put(tasks, Task::Fail(unknown_mode_text(mode)));
    }
    assert(tasks_view(tasks@) =~= start + restore(mode, key@, manifest@, from, progress));
}

/// Decrypt the manifest of a vault; a wrong password fails here. `bytes` is the
/// encrypted metadata where the mode is the streamed one, and the whole vault file
/// otherwise.
pub fn read_and_decrypt_manifest(mode: u8, key: &Key, bytes: &[u8]) -> (r: Result<Vec<u8>, String>)
    ensures
        match open_manifest(mode, key@, bytes@) {
            Ok(m) => r matches Ok(n) && n@ == m,
            Err(e) => r matches Err(f) && f@ == e,
        },
{
    if mode == MODE_FULL_STREAM {
        decrypt(key, bytes)
    } else if bytes.len() < 29 {
        Err(String::from_str("vault 数据损坏"))
    } else {
        let ct = slice_subrange(bytes, 17, bytes.len());
        assert(ct@ =~= bytes@.skip(17));
        decrypt(key, ct)
    }
}

/// The tasks of unlocking a folder. A vault that does not open, as with a wrong
/// password, is refused before anything is touched.
pub fn unlock_tasks(mode: u8, bytes: &[u8], key: &Key, progress: bool) -> (r: Result<
    Vec<Task<String, Vec<u8>>>,
    String,
>)
    ensures
        match open_manifest(mode, key@, bytes@) {
            Ok(manifest) => r matches Ok(tasks) && tasks_view(tasks@) == unlock_plan(
                mode,
                key@,
                manifest,
                numbering(manifest, bytes@),
                progress,
            ),
            Err(e) => r matches Err(f) && f@ == e,
        },
{
    let manifest = match read_and_decrypt_manifest(mode, key, bytes) {
        Ok(m) => m,
        Err(e) => {
            return Err(e);
        },
    };
    proof {
        reveal(numbers_from);
    }
    let from: Option<u64> = if has_numbered_streams(manifest.as_slice()) {
        Some(get_le56(bytes))
    } else {
        None
    };
    let mut tasks: Vec<Task<String, Vec<u8>>> = Vec::new();
    put(&mut tasks, Task::Do(Action::Mark(PendingOp::Decrypt)));
    put_restore(&mut tasks, mode, key, manifest.as_slice(), from, progress);
    put(&mut tasks, Task::Do(Action::DropVault));
    put(&mut tasks, Task::Do(Action::Unmark));
    assert(tasks_view(tasks@) =~= unlock_plan(mode, key@, manifest@, from, progress));
    Ok(tasks)
}

/// Is this what unlocking a folder starts with: a fresh job over the plan, or the
/// message of a vault that does not open?
pub open spec fn unlock_starts(
    mode: u8,
    bytes: Seq<u8>,
    key: Seq<u8>,
    progress: bool,
    r: Result<Job, String>,
) -> bool {
    match open_manifest(mode, key, bytes) {
        Ok(manifest) => {
            &&& r matches Ok(job)
            &&& job.wf()
            &&& job@ == initial(
                unlock_plan(mode, key, manifest, numbering(manifest, bytes), progress),
                0,
            )
            &&& job@.outcome is None ==> job.key() == key
        },
        Err(e) => {
            &&& r matches Err(f)
            &&& f@ == e
        },
    }
}

/// Unlock a folder, going by the mode byte of its vault. `bytes` is the encrypted
/// metadata where the mode is the streamed one, and the whole vault file otherwise.
pub fn decrypt_folder(mode: u8, bytes: &[u8], key: &Key) -> (r: Result<Job, String>)
    ensures
        unlock_starts(mode, bytes@, key@, false, r),
{
    match unlock_tasks(mode, bytes, key, false) {
        Ok(tasks) => {
            proof {
                weight_at_most_len(tasks_view(tasks@));
                assert(tasks.len() <= usize::MAX);
            }
            Ok(Job::start(key, tasks, 0))
        },
        Err(e) => Err(e),
    }
}

/// Same as [`decrypt_folder`], with the progress shown after each entry.
pub fn decrypt_folder_with_progress(mode: u8, bytes: &[u8], key: &Key) -> (r: Result<Job, String>)
    ensures
        unlock_starts(mode, bytes@, key@, true, r),
{
    match unlock_tasks(mode, bytes, key, true) {
        Ok(tasks) => {
            proof {
                weight_at_most_len(tasks_view(tasks@));
                assert(tasks.len() <= usize::MAX);
            }
            Ok(Job::start(key, tasks, 0))
        },
        Err(e) => Err(e),
    }
}

// ── finishing an interrupted lock ──

/// The files among the first `k` entries, with the names that they are stored under.
pub open spec fn named_pairs(entries: Seq<Entry>, k: nat) -> Seq<Pair>
    decreases k,
{
    if k == 0 {
        Seq::empty()
    } else {
        let before = named_pairs(entries, (k - 1) as nat);
        match entries[k - 1].stream {
            Some(name) => before.push((entries[k - 1].rel, name)),
            None => before,
        }
    }
}

/// How many of the first `k` entries are files.
pub open spec fn files_among(entries: Seq<Entry>, k: nat) -> nat
    decreases k,
{
    if k == 0 {
        0
    } else {
        files_among(entries, (k - 1) as nat) + if entries[k - 1].is_dir {
            0nat
        } else {
            1nat
        }
    }
}

/// What is left of an interrupted lock: the tasks, and the files counted already.
pub open spec fn resume_plan(mode: u8, manifest: Seq<u8>, progress: bool) -> Result<
    (Seq<Step>, nat),
    Seq<char>,
> {
    let clear = seq![Task::Clear, Task::Do(Action::Unmark)];
    if mode == MODE_FULL_STREAM {
        let (entries, broken) = manifest_says(Magic::Full, Reading::Meta, manifest);
        match broken {
            Some(e) => Err(e),
            None => Ok((clear, files_among(entries, entries.len()))),
        }
    } else if mode == MODE_FULL {
        match files_announced(manifest) {
            Err(e) => Err(e),
            Ok(n) => Ok((clear, n)),
        }
    } else {
        let magic = if mode == MODE_SIMPLE {
            Magic::Simple
        } else {
            Magic::Move
        };
        let store = if mode == MODE_SIMPLE {
            Store::Streams
        } else {
            Store::Container
        };
        let (entries, broken) = manifest_says(magic, Reading::Resume, manifest);
        match broken {
            Some(e) => Err(e),
            None => Ok((store_files(store, named_pairs(entries, entries.len()), progress), 0)),
        }
    }
}

/// Is this what finishing an interrupted lock starts with?
pub open spec fn resume_starts(
    mode: u8,
    bytes: Seq<u8>,
    key: Seq<u8>,
    progress: bool,
    r: Result<(Vec<Task<String, Vec<u8>>>, usize), String>,
) -> bool {
    if mode > MODE_FULL_STREAM {
        r matches Err(f) && f@ == unknown_mode(mode)
    } else {
        match open_manifest(mode, key, bytes) {
            Err(e) => r matches Err(f) && f@ == e,
            Ok(manifest) => match resume_plan(mode, manifest, progress) {
                Err(e) => r matches Err(f) && f@ == e,
                Ok((plan, n)) => {
                    &&& r matches Ok(t)
                    &&& tasks_view(t.0@) == plan
                    &&& t.1 == n
                },
            },
        }
    }
}

/// Read a simple or a move-lock manifest and return the files with the names that
/// they are stored under.
pub fn parse_simple_file_rels(magic: Magic, manifest: &[u8]) -> (r: Result<
    Vec<(String, String)>,
    String,
>)
    ensures
        ({
            let (entries, broken) = manifest_says(magic, Reading::Resume, manifest@);
            match broken {
                Some(e) => r matches Err(f) && f@ == e,
                None => r matches Ok(pairs) && pairs_view(pairs@) == named_pairs(
                    entries,
                    entries.len(),
                ),
            }
        }),
{
    let parsed = parse_manifest(magic, Reading::Resume, manifest);
    if let Some(e) = parsed.broken {
        return Err(e);
    }
    let ghost all = entries_view(parsed.entries@);
    let mut pairs: Vec<(String, String)> = Vec::new();
    let mut i: usize = 0;
    assert(pairs_view(pairs@) =~= Seq::empty());
    while i < parsed.entries.len()
        invariant
            i <= parsed.entries@.len(),
            all == entries_view(parsed.entries@),
            pairs_view(pairs@) == named_pairs(all, i as nat),
        decreases parsed.entries.len() - i,
    {
        let e = &parsed.entries[i];
        assert(all[i as int] == e@);
        if let Some(name) = &e.stream {
            let ghost before = pairs@;
            let pair = (e.rel.clone(), name.clone());
            pairs.push(pair);
            assert(pairs_view(pairs@) =~= pairs_view(before).push((pair.0@, pair.1@)));
        }
        i = i + 1;
    }
    Ok(pairs)
}

/// The tasks of finishing an interrupted lock, and the files that count as
/// processed from the start.
pub fn resume_tasks(mode: u8, bytes: &[u8], key: &Key, progress: bool) -> (r: Result<
    (Vec<Task<String, Vec<u8>>>, usize),
    String,
>)
    ensures
        resume_starts(mode, bytes@, key@, progress, r),
        r matches Ok(t) ==> t.1 + total_weight(tasks_view(t.0@)) <= usize::MAX,
{
    if mode > MODE_FULL_STREAM {
        return Err(unknown_mode_text(mode));
    }
    let manifest = match read_and_decrypt_manifest(mode, key, bytes) {
        Ok(m) => m,
        Err(e) => {
            return Err(e);
        },
    };
    let mut tasks: Vec<Task<String, Vec<u8>>> = Vec::new();
    assert(tasks_view(tasks@) =~= Seq::empty());
    if mode == MODE_FULL_STREAM || mode == MODE_FULL {
        let n: usize;
        if mode == MODE_FULL_STREAM {
            let parsed = parse_manifest(Magic::Full, Reading::Meta, manifest.as_slice());
            if let Some(e) = parsed.broken {
                return Err(e);
            }
            let ghost all = entries_view(parsed.entries@);
            let mut files: usize = 0;
            let mut i: usize = 0;
            while i < parsed.entries.len()
                invariant
                    i <= parsed.entries@.len(),
                    all == entries_view(parsed.entries@),
                    files == files_among(all, i as nat),
                    files <= i,
                decreases parsed.entries.len() - i,
            {
                assert(all[i as int] == parsed.entries@[i as int]@);
                if !parsed.entries[i].is_dir {
                    files = files + 1;
                }
                i = i + 1;
            }
            n = files;
        } else {
            match manifest_file_count_full(manifest.as_slice()) {
                Ok(files) => {
                    n = files;
                },
                Err(e) => {
                    return Err(e);
                },
            }
        }
        put(&mut tasks, Task::Clear);
        put(&mut tasks, Task::Do(Action::Unmark));
        proof {
            assert(tasks_view(tasks@) =~= seq![Task::Clear, Task::Do(Action::Unmark)]);
            weightless_tasks(tasks_view(tasks@));
        }
        return Ok((tasks, n));
    }
    let (magic, store) = if mode == MODE_SIMPLE {
        (Magic::Simple, Store::Streams)
    } else {
        (Magic::Move, Store::Container)
    };
    let pairs = match parse_simple_file_rels(magic, manifest.as_slice()) {
        Ok(pairs) => pairs,
        Err(e) => {
            return Err(e);
        },
    };
    put_store_files(&mut tasks, store, &pairs, progress);
    proof {
        weight_at_most_len(tasks_view(tasks@));
        assert(tasks.len() <= usize::MAX);
    }
    Ok((tasks, 0))
}

/// Finish an interrupted *encrypt*: read the vault, which validates the password,
/// bring the files that are still there into the store, and clear the folder.
pub fn resume_encrypt(mode: u8, bytes: &[u8], key: &Key) -> (r: Result<Job, String>)
    ensures
        exists|t: Result<(Vec<Task<String, Vec<u8>>>, usize), String>| #[trigger]
            resume_starts(mode, bytes@, key@, true, t) && match t {
                Err(e) => r matches Err(f) && f@ == e@,
                Ok(t) => {
                    &&& r matches Ok(job)
                    &&& job.wf()
                    &&& job@ == initial(tasks_view(t.0@), t.1 as nat)
                    &&& job@.outcome is None ==> job.key() == key@
                },
            },
{
    let r = resume_tasks(mode, bytes, key, true);
    let ghost t = r;
    assert(resume_starts(mode, bytes@, key@, true, t));
    match r {
        Ok((tasks, n)) => Ok(Job::start(key, tasks, n)),
        Err(e) => Err(e),
    }
}

// ── what is read of a vault and of a journal ──

/// The salt of a vault is its first sixteen bytes and its mode is the byte behind them;
/// where a vault is too short for them there is none.
pub proof fn header_is_salt_and_mode(head: &[u8], salt: Result<Salt, String>, mode: Result<u8, String>)
    requires
        call_ensures(read_vault_salt, (head,), salt),
        call_ensures(read_vault_mode, (head,), mode),
    ensures
        salt is Ok <==> head@.len() >= 16,
        mode is Ok <==> head@.len() >= 17,
        salt matches Ok(s) ==> forall|i: int| 0 <= i < 16 ==> #[trigger] s@[i] == head@[i],
        mode matches Ok(m) ==> m == head@[16],
        salt matches Err(e) ==> e@ == "读取 salt 失败: failed to fill whole buffer"@,
        mode matches Err(e) ==> e@ == "读取 mode 失败: failed to fill whole buffer"@,
{
    reveal_strlit("读取 salt 失败");
    reveal_strlit("读取 mode 失败");
    reveal_strlit(": ");
    reveal_strlit("failed to fill whole buffer");
    reveal_strlit("读取 salt 失败: failed to fill whole buffer");
    reveal_strlit("读取 mode 失败: failed to fill whole buffer");
    assert("读取 salt 失败"@ + ": "@ + "failed to fill whole buffer"@
        =~= "读取 salt 失败: failed to fill whole buffer"@);
    assert("读取 mode 失败"@ + ": "@ + "failed to fill whole buffer"@
        =~= "读取 mode 失败: failed to fill whole buffer"@);
}

/// A vault is there exactly where its name belongs to a file.
pub proof fn vault_is_a_file(at_name: Option<EntryKind>, r: bool)
    requires
        call_ensures(vault_exists, (at_name,), r),
    ensures
        r <==> at_name == Some(EntryKind::File),
{
}

/// The length of the metadata is the number in the four bytes behind the header, the
/// lowest first.
pub proof fn metadata_has_its_length_in_front(bytes: &[u8], r: Result<usize, String>)
    requires
        call_ensures(meta_length, (bytes,), r),
    ensures
        r is Ok <==> bytes@.len() >= 4,
        r matches Ok(n) ==> n == bytes@[0] + 256 * bytes@[1] + 65536 * bytes@[2] + 16777216
            * bytes@[3],
{
}

/// A journal holds the letter `E` of a lock or `D` of an unlock, and is read back as what
/// it was written for, whatever follows the letter; with any other letter, or none, it
/// tells of nothing.
pub proof fn journal_holds_one_letter(
    op: PendingOp,
    content: Vec<u8>,
    read: Option<&[u8]>,
    found: Option<PendingOp>,
)
    requires
        call_ensures(write_pending, (op,), content),
        call_ensures(read_pending, (read,), found),
    ensures
        content@.len() == 1,
        op == PendingOp::Encrypt <==> content@[0] as int == 'E' as int,
        op == PendingOp::Decrypt <==> content@[0] as int == 'D' as int,
        read matches Some(c) ==> {
            &&& c@.len() > 0 && c@[0] == content@[0] ==> found == Some(op)
            &&& c@.len() == 0 ==> found is None
            &&& c@.len() > 0 && c@[0] as int != 'E' as int && c@[0] as int != 'D' as int
                ==> found is None
        },
        read is None ==> found is None,
{
}

} // verus!
