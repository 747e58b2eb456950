//! Whole operations on a folder that is held in memory.

use std::collections::BTreeMap;

use folder_lock::crypto;
use folder_lock::job::{Action, Job, Place, Reply, Store};
use folder_lock::logic;
use folder_lock::stream::{Awaits, Opener, Sealer, STREAM_CHUNK};
use folder_lock::vault;
use folder_lock::walk::{EntryKind, Listing, Walk, WalkStep};

type Held = BTreeMap<String, Vec<u8>>;

/// A folder in memory: what is packed, and the tool's own files.
#[derive(Default)]
struct Folder {
    /// Files with their contents, and directories.
    items: BTreeMap<String, Option<Vec<u8>>>,
    vault: Option<Vec<u8>>,
    draft: Option<Vec<u8>>,
    streams: Option<Held>,
    data: Option<Held>,
    state: Option<Vec<u8>>,
    unread: usize,
    reports: Vec<(usize, usize)>,
    icon: bool,
    /// Actions left until the machine stops.
    fuel: Option<usize>,
    /// Actions left until one fails.
    fault: Option<usize>,
}

fn parents(rel: &str) -> Vec<String> {
    let parts: Vec<&str> = rel.split('/').collect();
    (1..parts.len()).map(|n| parts[..n].join("/")).collect()
}

impl Folder {
    fn write(&mut self, rel: &str, bytes: &[u8]) {
        self.items.insert(rel.to_string(), Some(bytes.to_vec()));
    }

    fn create_dir_all(&mut self, rel: &str) {
        for p in parents(rel) {
            self.items.insert(p, None);
        }
        self.items.insert(rel.to_string(), None);
    }

    fn has(&self, rel: &str) -> bool {
        self.items.contains_key(rel)
    }

    fn is_dir(&self, rel: &str) -> bool {
        matches!(self.items.get(rel), Some(None))
    }

    fn read(&self, rel: &str) -> Option<Vec<u8>> {
        match self.items.get(rel) {
            Some(Some(bytes)) => Some(bytes.clone()),
            _ => None,
        }
    }

    fn read_to_string(&self, rel: &str) -> String {
        String::from_utf8(self.read(rel).unwrap()).unwrap()
    }

    fn children(&self, dir: &str) -> Vec<(String, EntryKind)> {
        let mut found = Vec::new();
        for (rel, item) in &self.items {
            let (parent, name) = match rel.rfind('/') {
                Some(i) => (&rel[..i], &rel[i + 1..]),
                None => ("", rel.as_str()),
            };
            if parent == dir {
                let kind = if item.is_none() { EntryKind::Dir } else { EntryKind::File };
                found.push((name.to_string(), kind));
            }
        }
        found
    }

    fn list(&self) -> Listing {
        let mut walk = Walk::new();
        let mut open: Vec<Vec<(String, EntryKind)>> = Vec::new();
        loop {
            match walk.step() {
                WalkStep::Open(dir) => {
                    open.push(self.children(&dir));
                    walk.opened();
                }
                WalkStep::Next => match open.last_mut().unwrap().pop() {
                    Some((name, kind)) => walk.entry(&name, kind),
                    None => {
                        open.pop();
                        walk.end();
                    }
                },
                WalkStep::Done => return walk.finish(),
            }
        }
    }

    fn store(&mut self, store: Store) -> &mut Option<Held> {
        match store {
            Store::Streams => &mut self.streams,
            Store::Container => &mut self.data,
        }
    }

    fn seal(&mut self, key: &crypto::Key, rel: &str, number: u64) {
        let content = self.read(rel).unwrap();
        let mut sealer = Sealer::numbered(key, number);
        let draft = self.draft.as_mut().unwrap();
        draft.extend_from_slice(&sealer.preamble());
        let mut at = 0;
        while !sealer.finished() {
            let end = content.len().min(at + STREAM_CHUNK);
            let chunk = content[at..end].to_vec();
            at = end;
            if let Some(frame) = sealer.feed(key, chunk).unwrap() {
                draft.push(frame.flag);
                draft.extend_from_slice(&frame.length);
                draft.extend_from_slice(&frame.body);
            }
        }
    }

    /// Decrypt the next stream to the temporary file.
    fn open(&mut self, key: &crypto::Key, due: Option<u64>) -> Result<(), String> {
        let bytes = self.vault.clone().unwrap();
        let mut opener = Opener::numbered(due);
        self.draft = Some(Vec::new());
        while opener.awaits() != Awaits::Nothing {
            let end = self.unread + opener.wants();
            if end > bytes.len() {
                return Err("the vault ends".to_string());
            }
            let plain = opener.feed(key, &bytes[self.unread..end])?;
            self.draft.as_mut().unwrap().extend(plain);
            self.unread = end;
        }
        Ok(())
    }

    /// Rename the temporary file into place.
    fn put(&mut self, rel: &str) {
        let bytes = self.draft.take().unwrap();
        self.write(rel, &bytes);
    }

    fn perform(&mut self, action: Action<String, Vec<u8>>, key: &crypto::Key) -> Reply {
        match action {
            Action::CreateVault => self.draft = Some(Vec::new()),
            Action::WriteVault { bytes, .. } => {
                self.draft.as_mut().unwrap().extend_from_slice(&bytes)
            }
            Action::SealFile { rel, number } => self.seal(key, &rel, number),
            Action::FlushVault => {}
            Action::CommitVault => self.vault = self.draft.take(),
            Action::Mark(op) => self.state = Some(vault::write_pending(op)),
            Action::Unmark => self.state = None,
            Action::ListTree => return Reply::Listed(self.list()),
            Action::RemoveFile { rel } => {
                self.items.remove(&rel);
            }
            Action::RemoveDir { rel } => {
                if !self.children(&rel).is_empty() {
                    return Reply::Failed("not empty".to_string());
                }
                self.items.remove(&rel);
            }
            Action::Probe(Place::File { rel }) => {
                return Reply::Found(self.read(&rel).is_some())
            }
            Action::Probe(Place::Stored { store, name }) => {
                let there = match self.store(store) {
                    Some(held) => held.contains_key(&name),
                    None => false,
                };
                return Reply::Found(there);
            }
            Action::Probe(Place::Host) => return Reply::Found(self.streams.is_some()),
            Action::CreateHost => self.streams = Some(Held::new()),
            Action::HideHost | Action::LiftGuard | Action::GuardData => {}
            Action::CreateData => {
                self.data.get_or_insert_with(Held::new);
            }
            Action::Stash { store, rel, name } => {
                let bytes = self.read(&rel).unwrap();
                match self.store(store) {
                    Some(held) => held.insert(name, bytes),
                    None => return Reply::Failed("no store".to_string()),
                };
                if store == Store::Container {
                    self.items.remove(&rel);
                }
            }
            Action::Fetch { store: Store::Streams, rel, name } => {
                self.draft = Some(self.streams.as_ref().unwrap()[&name].clone());
                self.put(&rel);
            }
            Action::Fetch { store: Store::Container, rel, name } => {
                let bytes = self.data.as_mut().unwrap().remove(&name).unwrap();
                self.write(&rel, &bytes);
            }
            Action::RemoveStream { name } => {
                self.streams.as_mut().unwrap().remove(&name);
            }
            Action::MakeDir { rel } => self.create_dir_all(&rel),
            Action::MakeParents { rel } => {
                for p in parents(&rel) {
                    self.items.insert(p, None);
                }
            }
            Action::PutFile { rel, bytes } => {
                self.draft = Some(bytes);
                self.put(&rel);
            }
            Action::OpenFile { rel, due } => match self.open(key, due) {
                Ok(()) => self.put(&rel),
                Err(e) => return Reply::Failed(e),
            },
            Action::DropStore(store) => *self.store(store) = None,
            Action::DropVault => self.vault = None,
            Action::Report { done, total } => self.reports.push((done, total)),
            Action::ShowIcon => self.icon = true,
            Action::HideIcon => self.icon = false,
        }
        Reply::Done
    }

    /// Run a job to its end, or until the machine stops.
    fn run(&mut self, started: Result<Job, String>) -> Result<usize, String> {
        let mut job = started?;
        loop {
            if let Some(outcome) = job.outcome() {
                assert_eq!(*job.key_ref(), [0u8; 32], "an ended job still holds its key");
                return outcome;
            }
            if let Some(fuel) = &mut self.fuel {
                if *fuel == 0 {
                    return Err("the machine stopped".to_string());
                }
                *fuel -= 1;
            }
            let key = *job.key_ref();
            let action = job.action().unwrap();
            if self.fault == Some(0) {
                self.fault = None;
                job.reply(Reply::Failed("disk error".to_string()));
                continue;
            }
            self.fault = self.fault.map(|n| n - 1);
            let reply = self.perform(action, &key);
            job.reply(reply);
        }
    }

    fn salt(&self) -> Result<crypto::Salt, String> {
        vault::read_vault_salt(self.vault.as_ref().unwrap())
    }

    fn mode(&self) -> Result<u8, String> {
        vault::read_vault_mode(self.vault.as_ref().unwrap())
    }

    /// What is to be decrypted of the vault: the metadata of a streamed one, and
    /// all of any other.
    fn body(&mut self) -> Vec<u8> {
        let bytes = self.vault.clone().unwrap();
        if self.mode().unwrap() == vault::MODE_FULL_STREAM {
            let n = vault::meta_length(&bytes[vault::HEADER_LEN..]).unwrap();
            let start = vault::HEADER_LEN + 4;
            self.unread = start + n;
            bytes[start..start + n].to_vec()
        } else {
            bytes
        }
    }

    fn decrypt(&mut self, key: &crypto::Key) -> Result<usize, String> {
        let mode = self.mode()?;
        let body = self.body();
        self.run(vault::decrypt_folder(mode, &body, key))
    }

    fn resume(&mut self, key: &crypto::Key) -> Result<usize, String> {
        let mode = self.mode()?;
        let body = self.body();
        self.run(vault::resume_encrypt(mode, &body, key))
    }

    fn names(&self) -> Vec<String> {
        self.children("").into_iter().map(|(name, _)| name).collect()
    }
}

fn build_sample_tree(root: &mut Folder) {
    root.write("secret.txt", b"Hello secret content\r\n");
    root.write("notes.md", b"Another line of data\r\n");
    root.create_dir_all("sub");
    root.write("sub/nested.txt", b"nested file content");
    root.create_dir_all("a/b");
    root.write("a/b/deep.bin", &vec![0u8; 4096]);
    root.create_dir_all("emptydir"); // empty dir survives
}

#[test]
fn encrypt_then_decrypt_roundtrip() {
    let mut dir = Folder::default();
    build_sample_tree(&mut dir);

    let password = b"correct horse battery staple";
    let salt = crypto::random_salt();
    let key = crypto::derive_key(password, &salt).unwrap();

    let n = dir.run(vault::encrypt_folder(&dir.list(), &key, &salt)).unwrap();
    assert!(n >= 4, "expected at least 4 files packed, got {}", n);

    // After encryption: original files gone, vault present.
    assert!(!dir.has("secret.txt"), "secret.txt still present after encrypt");
    assert!(!dir.has("sub"), "sub dir still present after encrypt");
    assert!(dir.vault.is_some(), "vault file missing");

    // Wrong password must fail.
    let wrong_salt = dir.salt().unwrap();
    let wrong_key = crypto::derive_key(b"totally wrong password", &wrong_salt).unwrap();
    let err = dir.decrypt(&wrong_key);
    assert!(err.is_err(), "wrong password should fail decryption");

    // Correct password restores everything.
    let right_salt = dir.salt().unwrap();
    let right_key = crypto::derive_key(password, &right_salt).unwrap();
    let restored = dir.decrypt(&right_key).unwrap();
    assert!(restored >= 4, "expected at least 4 files restored, got {}", restored);

    // Content integrity.
    assert_eq!(dir.read_to_string("secret.txt"), "Hello secret content\r\n");
    assert_eq!(dir.read_to_string("sub/nested.txt"), "nested file content");
    let deep = dir.read("a/b/deep.bin").unwrap();
    assert_eq!(deep.len(), 4096);
    assert!(deep.iter().all(|&b| b == 0));
    assert!(dir.is_dir("emptydir"), "empty dir should be restored");
    assert!(dir.vault.is_none(), "vault should be removed after decrypt");
}

#[test]
fn move_lock_roundtrip() {
    let mut dir = Folder::default();
    build_sample_tree(&mut dir);

    let password = b"instant lock please";
    let salt = crypto::random_salt();
    let key = crypto::derive_key(password, &salt).unwrap();

    let n = dir.run(vault::encrypt_folder_move(&dir.list(), &key, &salt)).unwrap();
    assert!(n >= 4, "expected at least 4 files moved, got {}", n);

    // Originals gone, vault present.
    assert!(!dir.has("secret.txt"), "secret.txt still present after move-lock");
    assert!(!dir.has("sub"), "sub dir still present after move-lock");
    assert!(dir.vault.is_some(), "vault file missing");

    // Wrong password must fail (manifest is still AES-GCM protected).
    let wrong_salt = dir.salt().unwrap();
    let wrong_key = crypto::derive_key(b"nope", &wrong_salt).unwrap();
    assert!(dir.decrypt(&wrong_key).is_err(), "wrong password should fail");

    // Correct password restores everything.
    let right_salt = dir.salt().unwrap();
    let right_key = crypto::derive_key(password, &right_salt).unwrap();
    let restored = dir.decrypt(&right_key).unwrap();
    assert!(restored >= 4, "expected at least 4 files restored, got {}", restored);

    // Content integrity + cleanup.
    assert_eq!(dir.read_to_string("secret.txt"), "Hello secret content\r\n");
    assert_eq!(dir.read_to_string("sub/nested.txt"), "nested file content");
    let deep = dir.read("a/b/deep.bin").unwrap();
    assert_eq!(deep.len(), 4096);
    assert!(dir.is_dir("emptydir"), "empty dir should be restored");
    assert!(dir.vault.is_none(), "vault should be removed after decrypt");
    assert!(dir.data.is_none(), "data container should be removed after decrypt");
}

/// A crash mid-lock leaves the vault written (name mapping safe) but some
/// originals not yet moved and the journal set. `resume_encrypt` must finish
/// the lock idempotently: overwrite-and-delete the leftover originals, skip the
/// files already moved, clear the journal, and keep a decryptable vault.
#[test]
fn resume_encrypt_finishes_interrupted_simple() {
    let mut dir = Folder::default();
    build_sample_tree(&mut dir);

    let password = b"resume me please";
    let salt = crypto::random_salt();
    let key = crypto::derive_key(password, &salt).unwrap();

    let n = dir.run(vault::encrypt_folder_simple(&dir.list(), &key, &salt)).unwrap();
    assert!(n >= 4, "expected at least 4 files locked, got {}", n);

    // Simulate the interrupt: two originals "weren't deleted yet" (their streams
    // already exist), and the folder is still flagged mid-encrypt.
    dir.write("secret.txt", b"Hello secret content\r\n");
    dir.create_dir_all("sub");
    dir.write("sub/nested.txt", b"nested file content");
    dir.state = Some(vault::write_pending(vault::PendingOp::Encrypt));
    assert_eq!(vault::read_pending(dir.state.as_deref()), Some(vault::PendingOp::Encrypt));

    let key2 = crypto::derive_key(password, &dir.salt().unwrap()).unwrap();
    let done = dir.resume(&key2).unwrap();
    assert!(done >= 4, "resume should account for every file, got {}", done);

    assert_eq!(
        vault::read_pending(dir.state.as_deref()),
        None,
        "journal must be cleared after resume"
    );
    assert!(!dir.has("secret.txt"), "leftover original not cleaned by resume");
    assert!(dir.vault.is_some(), "vault should remain after encrypt-resume");

    // A normal decrypt then restores everything with correct content.
    let key3 = crypto::derive_key(password, &dir.salt().unwrap()).unwrap();
    let restored = dir.decrypt(&key3).unwrap();
    assert!(restored >= 4, "expected at least 4 files restored, got {}", restored);
    assert_eq!(dir.read_to_string("secret.txt"), "Hello secret content\r\n");
    assert_eq!(dir.read_to_string("sub/nested.txt"), "nested file content");
    let deep = dir.read("a/b/deep.bin").unwrap();
    assert_eq!(deep.len(), 4096);
}

/// A decrypt that restored the files but was killed before removing the vault
/// must be safe to replay: every source is already consumed, so the re-run is a
/// harmless no-op success.
#[test]
fn decrypt_move_is_idempotent_after_consume() {
    let mut dir = Folder::default();
    build_sample_tree(&mut dir);

    let password = b"instant lock please";
    let salt = crypto::random_salt();
    let key = crypto::derive_key(password, &salt).unwrap();

    dir.run(vault::encrypt_folder_move(&dir.list(), &key, &salt)).unwrap();
    let vault_bytes = dir.vault.clone().unwrap();

    let key2 = crypto::derive_key(password, &dir.salt().unwrap()).unwrap();
    let restored = dir.decrypt(&key2).unwrap();
    assert!(restored >= 4, "expected at least 4 files restored, got {}", restored);
    assert!(dir.vault.is_none(), "vault should be gone after decrypt");

    // Replay the (now stale) decrypt: put the vault back, flag mid-decrypt.
    dir.vault = Some(vault_bytes);
    dir.state = Some(vault::write_pending(vault::PendingOp::Decrypt));
    let key3 = crypto::derive_key(password, &dir.salt().unwrap()).unwrap();
    let again = dir.decrypt(&key3).unwrap();
    assert!(again >= 4, "idempotent re-decrypt should still count files, got {}", again);

    assert_eq!(dir.read_to_string("secret.txt"), "Hello secret content\r\n");
    assert!(dir.vault.is_none(), "vault should be gone after re-decrypt");
    assert_eq!(
        vault::read_pending(dir.state.as_deref()),
        None,
        "journal must be cleared after re-decrypt"
    );
}

/// If a payload is genuinely lost (e.g. a stream deleted by antivirus), decrypt
/// must still restore every survivor, report the loss, and keep the vault so
/// nothing is silently destroyed.
#[test]
fn decrypt_simple_tolerates_lost_stream() {
    let mut dir = Folder::default();
    build_sample_tree(&mut dir);

    let password = b"simple lossy";
    let salt = crypto::random_salt();
    let key = crypto::derive_key(password, &salt).unwrap();

    dir.run(vault::encrypt_folder_simple(&dir.list(), &key, &salt)).unwrap();

    // Delete a single stream. Stream names are assigned by sorted index, so
    // fl_000000 is the first file (a/b/deep.bin).
    assert!(dir.streams.as_mut().unwrap().remove("fl_000000").is_some());

    let key2 = crypto::derive_key(password, &dir.salt().unwrap()).unwrap();
    let err = dir.decrypt(&key2);
    assert!(err.is_err(), "a lost stream must surface as an error");
    let msg = err.unwrap_err();
    assert!(msg.contains("丢失"), "error should summarize the loss, got: {}", msg);

    // Vault preserved; the lost file stays gone; the survivors came back intact.
    assert!(dir.vault.is_some(), "vault must be preserved on loss");
    assert!(!dir.has("a/b/deep.bin"), "lost file should not reappear");
    assert_eq!(dir.read_to_string("secret.txt"), "Hello secret content\r\n");
    assert_eq!(dir.read_to_string("notes.md"), "Another line of data\r\n");
    assert_eq!(dir.read_to_string("sub/nested.txt"), "nested file content");
}

/// Deterministic pseudo-random bytes (simple LCG) so tests are reproducible.
fn pseudo_bytes(len: usize, seed: u64) -> Vec<u8> {
    let mut out = Vec::with_capacity(len);
    let mut state = seed.wrapping_add(0x9E3779B97F4A7C15);
    for _ in 0..len {
        state = state.wrapping_mul(6364136223846793005).wrapping_add(1442695040888963407);
        out.push((state >> 33) as u8);
    }
    out
}

/// A file larger than the 1 MiB streaming chunk (crosses several chunk
/// boundaries plus a partial last chunk) must survive a full-mode round trip
/// byte-for-byte, and the vault must use the streamed mode.
#[test]
fn full_stream_roundtrip_large_file() {
    let mut dir = Folder::default();
    let big = pseudo_bytes(3 * 1024 * 1024 + 123, 42);
    dir.write("big.bin", &big);
    dir.write("small.txt", b"tiny");
    dir.create_dir_all("emptydir");

    let password = b"streamed full mode";
    let salt = crypto::random_salt();
    let key = crypto::derive_key(password, &salt).unwrap();

    let n = dir.run(vault::encrypt_folder(&dir.list(), &key, &salt)).unwrap();
    assert!(n >= 2, "expected at least 2 files packed, got {}", n);
    assert!(!dir.has("big.bin"), "big.bin still present after encrypt");
    assert!(dir.vault.is_some(), "vault file missing");
    assert_eq!(
        dir.mode().unwrap(),
        vault::MODE_FULL_STREAM,
        "full encryption must now use the streamed mode"
    );

    // Wrong password fails on the metadata GCM.
    let wrong_key = crypto::derive_key(b"nope", &dir.salt().unwrap()).unwrap();
    assert!(dir.decrypt(&wrong_key).is_err(), "wrong password should fail");

    // Correct password restores everything, byte-for-byte.
    let right_key = crypto::derive_key(password, &dir.salt().unwrap()).unwrap();
    let restored = dir.decrypt(&right_key).unwrap();
    assert!(restored >= 2, "expected at least 2 files restored, got {}", restored);
    assert_eq!(dir.read("big.bin").unwrap(), big, "large file content mismatch");
    assert_eq!(dir.read_to_string("small.txt"), "tiny");
    assert!(dir.is_dir("emptydir"), "empty dir should be restored");
    assert!(dir.vault.is_none(), "vault should be removed after decrypt");
}

/// The copy into streams in simple mode must also round-trip a large file
/// without corruption.
#[test]
fn simple_roundtrip_large_file() {
    let mut dir = Folder::default();
    let big = pseudo_bytes(3 * 1024 * 1024 + 7, 99);
    dir.write("big.bin", &big);
    dir.write("small.txt", b"tiny");

    let password = b"streamed simple mode";
    let salt = crypto::random_salt();
    let key = crypto::derive_key(password, &salt).unwrap();

    let n = dir.run(vault::encrypt_folder_simple(&dir.list(), &key, &salt)).unwrap();
    assert!(n >= 2, "expected at least 2 files locked, got {}", n);
    assert!(!dir.has("big.bin"), "big.bin still present after simple lock");

    let right_key = crypto::derive_key(password, &dir.salt().unwrap()).unwrap();
    let restored = dir.decrypt(&right_key).unwrap();
    assert!(restored >= 2, "expected at least 2 files restored, got {}", restored);
    assert_eq!(dir.read("big.bin").unwrap(), big, "large file content mismatch");
    assert_eq!(dir.read_to_string("small.txt"), "tiny");
    assert!(dir.vault.is_none(), "vault should be removed after decrypt");
}

// ── more on whole operations ──

const KEY: crypto::Key = [7u8; 32];
const SALT: crypto::Salt = [9u8; 16];

fn lock(dir: &mut Folder, mode: i32) -> Result<usize, String> {
    let listing = dir.list();
    let started = if mode == logic::MODE_FULL {
        vault::encrypt_folder(&listing, &KEY, &SALT)
    } else if mode == logic::MODE_SIMPLE {
        vault::encrypt_folder_simple(&listing, &KEY, &SALT)
    } else {
        vault::encrypt_folder_move(&listing, &KEY, &SALT)
    };
    dir.run(started)
}

fn assert_sample(dir: &Folder, what: &str) {
    let mut want = Folder::default();
    build_sample_tree(&mut want);
    assert!(dir.items == want.items, "{}: the tree differs", what);
}

#[test]
fn a_lock_counts_the_files_and_leaves_only_protected_names() {
    for mode in [logic::MODE_FULL, logic::MODE_SIMPLE, logic::MODE_MOVE] {
        let mut dir = Folder::default();
        build_sample_tree(&mut dir);
        dir.write("Folder_Lock.EXE", b"program");
        dir.write("desktop.ini", b"[icon]");
        dir.create_dir_all("keep");
        dir.write("keep/tool.exe", b"program");
        assert_eq!(lock(&mut dir, mode), Ok(4));
        assert_eq!(dir.names(), ["Folder_Lock.EXE", "desktop.ini", "keep"]);
        assert!(dir.has("keep/tool.exe"));
        assert!(dir.state.is_none());
        assert_eq!(dir.decrypt(&KEY), Ok(4));
        assert_eq!(dir.read("a/b/deep.bin").unwrap(), vec![0u8; 4096]);
        assert!(dir.state.is_none() && dir.streams.is_none() && dir.data.is_none());
    }
}

#[test]
fn unlocking_gives_back_the_same_tree() {
    for mode in [logic::MODE_FULL, logic::MODE_SIMPLE, logic::MODE_MOVE] {
        let mut dir = Folder::default();
        build_sample_tree(&mut dir);
        dir.write("empty.txt", b"");
        let before = dir.items.clone();
        assert_eq!(lock(&mut dir, mode), Ok(5));
        assert_eq!(dir.decrypt(&KEY), Ok(5));
        assert!(dir.items == before);
    }
}

#[test]
fn an_empty_folder_is_left_alone() {
    for mode in [logic::MODE_FULL, logic::MODE_SIMPLE, logic::MODE_MOVE] {
        let mut dir = Folder::default();
        dir.write("tool.exe", b"program");
        assert_eq!(lock(&mut dir, mode), Ok(0));
        assert!(dir.vault.is_none());
        assert!(dir.has("tool.exe"));
    }
}

#[test]
fn a_lock_that_stops_anywhere_can_be_finished() {
    for mode in [logic::MODE_FULL, logic::MODE_SIMPLE, logic::MODE_MOVE] {
        let mut fuel = 0;
        loop {
            let mut dir = Folder::default();
            build_sample_tree(&mut dir);
            dir.fuel = Some(fuel);
            let done = lock(&mut dir, mode).is_ok();
            dir.fuel = None;
            if dir.vault.is_none() {
                assert_sample(&dir, "no vault yet");
            } else {
                assert_eq!(dir.resume(&KEY), Ok(4), "stopped after {} actions", fuel);
                assert!(dir.items.is_empty());
                assert_eq!(dir.decrypt(&KEY), Ok(4));
                assert_sample(&dir, "finished and unlocked");
            }
            if done {
                break;
            }
            fuel += 1;
        }
        assert!(fuel > 8);
    }
}

#[test]
fn an_unlock_that_stops_anywhere_can_start_anew() {
    for mode in [logic::MODE_FULL, logic::MODE_SIMPLE, logic::MODE_MOVE] {
        let mut fuel = 0;
        loop {
            let mut dir = Folder::default();
            build_sample_tree(&mut dir);
            lock(&mut dir, mode).unwrap();
            dir.fuel = Some(fuel);
            let done = dir.decrypt(&KEY).is_ok();
            dir.fuel = None;
            if dir.vault.is_some() {
                assert_eq!(dir.decrypt(&KEY), Ok(4), "stopped after {} actions", fuel);
            }
            assert_sample(&dir, "unlocked in the end");
            if done {
                break;
            }
            fuel += 1;
        }
        assert!(fuel > 8);
    }
}

#[test]
fn a_lock_with_any_action_failing_loses_nothing() {
    for mode in [logic::MODE_FULL, logic::MODE_SIMPLE, logic::MODE_MOVE] {
        for n in 0.. {
            let mut dir = Folder::default();
            build_sample_tree(&mut dir);
            dir.fault = Some(n);
            let result = lock(&mut dir, mode);
            if dir.fault.take().is_some() {
                assert!(n > 8);
                break;
            }
            if dir.vault.is_none() {
                assert!(result.is_err());
                assert_sample(&dir, "no vault yet");
            } else {
                assert_eq!(dir.resume(&KEY), Ok(4), "action {} failed", n);
                assert_eq!(dir.decrypt(&KEY), Ok(4));
                assert_sample(&dir, "resumed and unlocked");
            }
        }
    }
}

#[test]
fn an_unlock_with_any_action_failing_loses_nothing() {
    for mode in [logic::MODE_FULL, logic::MODE_SIMPLE, logic::MODE_MOVE] {
        for n in 0.. {
            let mut dir = Folder::default();
            build_sample_tree(&mut dir);
            lock(&mut dir, mode).unwrap();
            dir.fault = Some(n);
            let result = dir.decrypt(&KEY);
            if dir.fault.take().is_some() {
                assert!(n > 8);
                break;
            }
            if result.is_err() {
                // A store that cannot be looked at counts as one that has lost the file.
                assert!(dir.vault.is_some(), "action {} failed", n);
                assert_eq!(dir.decrypt(&KEY), Ok(4));
            }
            assert_sample(&dir, "unlocked");
        }
    }
}

#[test]
fn a_copy_that_was_cut_short_is_made_anew() {
    let mut dir = Folder::default();
    build_sample_tree(&mut dir);
    lock(&mut dir, logic::MODE_SIMPLE).unwrap();
    // fl_000001 is notes.md: it is still in the folder, and half of it in a stream.
    dir.write("notes.md", b"Another line of data\r\n");
    dir.streams.as_mut().unwrap().insert("fl_000001".to_string(), b"Anoth".to_vec());
    assert_eq!(dir.resume(&KEY), Ok(4));
    assert_eq!(dir.decrypt(&KEY), Ok(4));
    assert_sample(&dir, "resumed and unlocked");
}

#[test]
fn a_temporary_file_that_was_cut_short_does_no_harm() {
    for mode in [logic::MODE_FULL, logic::MODE_SIMPLE] {
        let mut dir = Folder::default();
        build_sample_tree(&mut dir);
        lock(&mut dir, mode).unwrap();
        dir.draft = Some(b"Anoth".to_vec());
        assert_eq!(dir.decrypt(&KEY), Ok(4));
        assert_sample(&dir, "unlocked");
        assert!(dir.draft.is_none());
    }
}

#[test]
fn a_resume_with_a_file_lost_fails() {
    let mut dir = Folder::default();
    build_sample_tree(&mut dir);
    lock(&mut dir, logic::MODE_SIMPLE).unwrap();
    dir.streams.as_mut().unwrap().remove("fl_000002");
    assert_eq!(dir.resume(&KEY), Err("源文件与 ADS 均缺失，无法锁定: secret.txt".to_string()));
    lock_and_lose(logic::MODE_MOVE);
}

fn lock_and_lose(mode: i32) {
    let mut dir = Folder::default();
    build_sample_tree(&mut dir);
    lock(&mut dir, mode).unwrap();
    dir.data.as_mut().unwrap().remove("fl_000002");
    assert_eq!(dir.resume(&KEY), Err("源文件与容器均缺失，无法锁定: secret.txt".to_string()));
}

#[test]
fn losses_are_counted_and_named() {
    for mode in [logic::MODE_SIMPLE, logic::MODE_MOVE] {
        let mut dir = Folder::default();
        build_sample_tree(&mut dir);
        lock(&mut dir, mode).unwrap();
        let store = if mode == logic::MODE_SIMPLE { &mut dir.streams } else { &mut dir.data };
        store.as_mut().unwrap().remove("fl_000001");
        store.as_mut().unwrap().remove("fl_000003");
        let message = dir.decrypt(&KEY).unwrap_err();
        assert_eq!(message, "已恢复 2 个文件，2 个数据已丢失无法恢复: notes.md, sub/nested.txt");
        assert!(dir.has("secret.txt") && dir.has("a/b/deep.bin") && dir.is_dir("sub"));
        assert!(!dir.has("notes.md"));
        assert_eq!(vault::read_pending(dir.state.as_deref()), Some(vault::PendingOp::Decrypt));
    }
}

#[test]
fn a_wrong_password_touches_nothing() {
    for mode in [logic::MODE_FULL, logic::MODE_SIMPLE, logic::MODE_MOVE] {
        let mut dir = Folder::default();
        build_sample_tree(&mut dir);
        lock(&mut dir, mode).unwrap();
        let before = dir.vault.clone();
        let e = dir.decrypt(&[8u8; 32]).unwrap_err();
        assert_eq!(e, "解密失败：密码错误或数据已损坏");
        assert!(dir.state.is_none());
        assert!(dir.items.is_empty());
        assert!(dir.vault == before);
        assert!(dir.resume(&[8u8; 32]).is_err());
    }
}

#[test]
fn a_tampered_stream_is_refused() {
    let mut dir = Folder::default();
    dir.write("one.txt", b"some content");
    lock(&mut dir, logic::MODE_FULL).unwrap();
    let last = dir.vault.as_ref().unwrap().len() - 1;
    dir.vault.as_mut().unwrap()[last] ^= 1;
    assert_eq!(dir.decrypt(&KEY).unwrap_err(), "解密失败：密码错误或数据已损坏");
    assert!(dir.vault.is_some());
    assert!(!dir.has("one.txt"));
}

#[test]
fn the_window_locks_and_unlocks_with_a_password() {
    let password = "密码 pass".as_bytes();
    let mut dir = Folder::default();
    build_sample_tree(&mut dir);
    let started = logic::encrypt(&dir.names(), Ok(dir.list()), logic::MODE_MOVE, password);
    assert_eq!(dir.run(started), Ok(4));
    assert!(dir.icon);
    assert_eq!(logic::detect_mode(dir.vault.as_deref()), Some(logic::MODE_MOVE));
    let head = dir.vault.clone().unwrap();
    let body = dir.body();
    let started = logic::decrypt(&head, Ok(body), password);
    assert_eq!(dir.run(started), Ok(4));
    assert!(!dir.icon);
    assert_sample(&dir, "unlocked");
    // A move lock is done at once and reports nothing on the way.
    assert!(dir.reports.is_empty());
}

#[test]
fn the_window_reports_file_by_file_where_contents_are_copied() {
    let password = b"report";
    let mut dir = Folder::default();
    build_sample_tree(&mut dir);
    let started = logic::encrypt(&dir.names(), Ok(dir.list()), logic::MODE_FULL, password);
    assert_eq!(dir.run(started), Ok(4));
    assert_eq!(dir.reports, [(1, 4), (2, 4), (3, 4), (4, 4)]);
    let head = dir.vault.clone().unwrap();
    let body = dir.body();
    dir.reports.clear();
    let started = logic::decrypt(&head, Ok(body), password);
    assert_eq!(dir.run(started), Ok(4));
    assert_eq!(dir.reports, (1..9).map(|n| (n, 8)).collect::<Vec<_>>());
    assert_sample(&dir, "unlocked");
}

#[test]
fn the_window_reports_what_it_resumes_in_every_mode() {
    let password = b"go on";
    let mut dir = Folder::default();
    build_sample_tree(&mut dir);
    dir.fuel = Some(9);
    let started = logic::encrypt(&dir.names(), Ok(dir.list()), logic::MODE_MOVE, password);
    assert!(dir.run(started).is_err());
    assert!(dir.reports.is_empty());
    for op in [vault::PendingOp::Encrypt, vault::PendingOp::Decrypt] {
        dir.fuel = None;
        dir.reports.clear();
        let head = dir.vault.clone().unwrap();
        let body = dir.body();
        let (resumed, job) = match logic::resume(Some(op), &head, Ok(body), password) {
            Ok(t) => t,
            Err(e) => panic!("{}", e),
        };
        assert_eq!(resumed, op);
        assert_eq!(dir.run(Ok(job)), Ok(4));
        let total = if op == vault::PendingOp::Encrypt { 4 } else { 8 };
        assert_eq!(dir.reports, (1..=total).map(|n| (n, total)).collect::<Vec<_>>());
    }
    assert_sample(&dir, "unlocked");
}

#[test]
fn the_vault_itself_reports_a_move_lock_when_asked_to() {
    let mut dir = Folder::default();
    build_sample_tree(&mut dir);
    let started = vault::encrypt_folder_move_with_progress(&dir.list(), &KEY, &SALT);
    assert_eq!(dir.run(started), Ok(4));
    assert_eq!(dir.reports, [(1, 4), (2, 4), (3, 4), (4, 4)]);
}

#[test]
fn the_window_goes_on_with_an_interrupted_operation() {
    let password = b"go on";
    let mut dir = Folder::default();
    build_sample_tree(&mut dir);
    dir.fuel = Some(9);
    let started = logic::encrypt(&dir.names(), Ok(dir.list()), logic::MODE_SIMPLE, password);
    assert!(dir.run(started).is_err());
    dir.fuel = None;
    let pending = logic::pending_op(dir.state.as_deref());
    assert_eq!(pending, Some(vault::PendingOp::Encrypt));
    let head = dir.vault.clone().unwrap();
    let body = dir.body();
    let (op, job) = match logic::resume(pending, &head, Ok(body), password) {
        Ok(t) => t,
        Err(e) => panic!("{}", e),
    };
    assert_eq!(op, vault::PendingOp::Encrypt);
    assert_eq!(dir.run(Ok(job)), Ok(4));
    assert!(dir.icon && dir.items.is_empty());
}

#[test]
fn no_name_of_a_file_is_in_the_way_of_the_temporary_one() {
    for mode in [logic::MODE_FULL, logic::MODE_SIMPLE, logic::MODE_MOVE] {
        let mut dir = Folder::default();
        dir.write("a.flocktmp", b"x");
        dir.write("a.txt", b"y");
        dir.create_dir_all("b.flocktmp");
        dir.write("b.txt", b"z");
        assert_eq!(lock(&mut dir, mode), Ok(3));
        assert!(dir.items.is_empty());
        assert_eq!(dir.decrypt(&KEY), Ok(3));
        assert_eq!(dir.read_to_string("a.flocktmp"), "x");
        assert_eq!(dir.read_to_string("a.txt"), "y");
        assert_eq!(dir.read_to_string("b.txt"), "z");
        assert!(dir.is_dir("b.flocktmp"));
    }
}

#[test]
fn exchanged_streams_are_refused() {
    let mut dir = Folder::default();
    dir.write("a", b"A");
    dir.write("b", b"B");
    assert_eq!(lock(&mut dir, logic::MODE_FULL), Ok(2));
    let right = dir.vault.clone().unwrap();
    let n = right.len();
    // Nonce, flag, length, and one byte with its tag.
    let mut wrong = right[..n - 58].to_vec();
    wrong.extend_from_slice(&right[n - 29..]);
    wrong.extend_from_slice(&right[n - 58..n - 29]);
    dir.vault = Some(wrong.clone());
    assert_eq!(dir.decrypt(&KEY).unwrap_err(), "解密失败：密码错误或数据已损坏");
    assert!(dir.items.is_empty());
    assert!(dir.vault == Some(wrong));
    // The same stream twice.
    let mut twice = right[..n - 29].to_vec();
    twice.extend_from_slice(&right[n - 58..n - 29]);
    dir.vault = Some(twice);
    assert_eq!(dir.decrypt(&KEY).unwrap_err(), "解密失败：密码错误或数据已损坏");
    assert_eq!(dir.items.len(), 1);
    dir.vault = Some(right);
    assert_eq!(dir.decrypt(&KEY), Ok(2));
    assert_eq!(dir.read_to_string("a") + &dir.read_to_string("b"), "AB");
}

#[test]
fn streams_are_numbered_from_the_nonce_of_the_metadata() {
    let mut dir = Folder::default();
    dir.create_dir_all("d");
    dir.write("a", b"A");
    dir.write("b", b"B");
    lock(&mut dir, logic::MODE_FULL).unwrap();
    let v = dir.vault.clone().unwrap();
    let number = |at: usize| {
        let mut b = [0u8; 8];
        b[..7].copy_from_slice(&v[at..at + 7]);
        u64::from_le_bytes(b)
    };
    let from = number(21);
    // The directory is the first entry, and has no stream.
    assert_eq!(number(v.len() - 58), (from + 2) % (1 << 56));
    assert_eq!(number(v.len() - 29), (from + 3) % (1 << 56));
}

#[test]
fn a_streamed_vault_whose_streams_have_no_numbers_is_unlocked() {
    let mut meta = b"FLOCKVLT".to_vec();
    meta.extend_from_slice(&2u16.to_le_bytes());
    meta.extend_from_slice(&2u32.to_le_bytes());
    for rel in ["a", "b"] {
        meta.extend_from_slice(&1u32.to_le_bytes());
        meta.extend_from_slice(rel.as_bytes());
        meta.push(0);
    }
    let ct = crypto::encrypt(&KEY, &meta).unwrap();
    let mut v = SALT.to_vec();
    v.push(vault::MODE_FULL_STREAM);
    v.extend_from_slice(&(ct.len() as u32).to_le_bytes());
    v.extend_from_slice(&ct);
    crypto::encrypt_stream(&KEY, b"first", &mut v).unwrap();
    crypto::encrypt_stream(&KEY, b"second", &mut v).unwrap();
    let mut dir = Folder::default();
    dir.vault = Some(v);
    assert_eq!(dir.decrypt(&KEY), Ok(2));
    assert_eq!(dir.read_to_string("a"), "first");
    assert_eq!(dir.read_to_string("b"), "second");
}

#[test]
fn locking_a_locked_folder_again_does_nothing() {
    for mode in [logic::MODE_FULL, logic::MODE_SIMPLE, logic::MODE_MOVE] {
        for again in [logic::MODE_FULL, logic::MODE_SIMPLE, logic::MODE_MOVE] {
            let mut dir = Folder::default();
            build_sample_tree(&mut dir);
            lock(&mut dir, mode).unwrap();
            let before = dir.vault.clone();
            assert_eq!(lock(&mut dir, again), Ok(0));
            assert!(dir.vault == before && dir.draft.is_none() && dir.state.is_none());
            assert_eq!(dir.decrypt(&KEY), Ok(4));
            assert_sample(&dir, "unlocked");
        }
    }
}

/// A vault of the first format, made by hand.
fn packed_vault(version: u16, entries: &[(&str, bool, &[u8])]) -> Vec<u8> {
    let mut manifest = b"FLOCKVLT".to_vec();
    manifest.extend_from_slice(&version.to_le_bytes());
    manifest.extend_from_slice(&(entries.len() as u32).to_le_bytes());
    for (rel, is_dir, content) in entries {
        manifest.extend_from_slice(&(rel.len() as u32).to_le_bytes());
        manifest.extend_from_slice(rel.as_bytes());
        manifest.push(*is_dir as u8);
        let data = if *is_dir { Vec::new() } else { crypto::encrypt(&KEY, content).unwrap() };
        manifest.extend_from_slice(&(data.len() as u64).to_le_bytes());
        manifest.extend_from_slice(&data);
    }
    let mut vault = SALT.to_vec();
    vault.push(vault::MODE_FULL);
    vault.extend(crypto::encrypt(&KEY, &manifest).unwrap());
    vault
}

#[test]
fn a_vault_of_the_first_format_is_unlocked() {
    for version in [1, 2, 3] {
        let mut dir = Folder::default();
        dir.vault = Some(packed_vault(
            version,
            &[
                ("sub/nested.txt", false, b"nested file content"),
                ("sub", true, b""),
                ("emptydir", true, b""),
                ("secret.txt", false, b"Hello"),
            ],
        ));
        assert_eq!(dir.decrypt(&KEY), Ok(2));
        assert_eq!(dir.read_to_string("sub/nested.txt"), "nested file content");
        assert_eq!(dir.read_to_string("secret.txt"), "Hello");
        assert!(dir.is_dir("emptydir") && dir.is_dir("sub"));
        assert!(dir.vault.is_none() && dir.state.is_none());
    }
}

#[test]
fn a_lock_of_the_first_format_is_finished_by_clearing() {
    let mut dir = Folder::default();
    build_sample_tree(&mut dir);
    dir.vault = Some(packed_vault(1, &[("secret.txt", false, b"Hello"), ("sub", true, b"")]));
    dir.state = Some(vault::write_pending(vault::PendingOp::Encrypt));
    assert_eq!(dir.resume(&KEY), Ok(1));
    assert!(dir.items.is_empty());
    assert!(dir.state.is_none());
}

#[test]
fn a_path_out_of_the_folder_is_refused() {
    let mut dir = Folder::default();
    dir.vault = Some(packed_vault(1, &[("ok.txt", false, b"fine"), ("../evil.txt", false, b"x")]));
    assert_eq!(dir.decrypt(&KEY), Err("拒绝不安全的路径: ../evil.txt".to_string()));
    assert_eq!(dir.read_to_string("ok.txt"), "fine");
    assert!(!dir.has("../evil.txt"));
    assert!(dir.vault.is_some());
}
