//! Requests served end to end, against a volume kept in memory.

use canistorage::chunked::{begin_upload, cancel_upload, commit_upload, send_data};
use canistorage::context::Context;
use canistorage::error::{
    Error, ERROR_ALREADY_EXISTS, ERROR_ALREADY_INITIALIZED, ERROR_INVALID_HASH,
    ERROR_INVALID_MIMETYPE, ERROR_INVALID_PATH, ERROR_INVALID_SEQUENCE, ERROR_INVALID_SIZE,
    ERROR_NOT_FOUND, ERROR_PERMISSION_DENIED, ERROR_UNKNOWN,
};
use canistorage::listing::list_files;
use canistorage::metadata::{Download, FileInfo, Info, Permission, MIMETYPE_DIRECTORY};
use canistorage::path::file_info_path;
use canistorage::permission::{
    check_manage_permission, check_read_permission, check_write_permission, paths_to_read,
};
use canistorage::plan::{failure, Action, Plan};
use canistorage::poc::{force_reset_for_poc, get_info_for_poc, paths_to_dump, FileInfoForPoC};
use canistorage::principal::Principal;
use canistorage::storage::{
    add_permission, check_read, create_directory, delete, delete_directory, get_info,
    has_permission, init_canistorage, load, read_failure, remove_permission, save, MAX_READ_SIZE,
};
use canistorage::store::Snapshot;
use canistorage::upload::{UploadTable, Uploading};
use sha2::{Digest, Sha256};
use std::collections::{BTreeMap, BTreeSet, HashMap};

const ROOT: &str = "./.test";

/// A volume in memory, and the state of one serving process.
struct Volume {
    root: String,
    files: BTreeMap<String, Vec<u8>>,
    infos: BTreeMap<String, FileInfo>,
    dirs: BTreeSet<String>,
    uploads: UploadTable,
    caller: Principal,
    now: u64,
}

fn principal(text: &str) -> Principal {
    let parsed = candid::Principal::from_text(text).unwrap();
    Principal::try_from_slice(parsed.as_slice()).unwrap()
}

fn owner() -> Principal {
    principal("zebsi-6birt-enaic-v4hbv-zffiv-ft53g-u4gi3-og45y-tskzf-m6jus-xqe")
}

fn directory(owner: Principal) -> FileInfo {
    FileInfo {
        size: 0,
        creator: owner,
        created_at: 0,
        updater: owner,
        updated_at: 0,
        mimetype: MIMETYPE_DIRECTORY.to_string(),
        manageable: vec![owner],
        readable: vec![owner],
        writable: vec![owner],
        sha256: None,
        signature: None,
    }
}

/// A volume whose root is a directory owned by `owner()`, who is the caller.
fn setup() -> Volume {
    let mut volume = Volume::empty(ROOT);
    volume.dirs.insert(ROOT.to_string());
    volume.set_file_info(ROOT, directory(owner()));
    volume
}

impl Volume {
    fn empty(root: &str) -> Volume {
        Volume {
            root: root.to_string(),
            files: BTreeMap::new(),
            infos: BTreeMap::new(),
            dirs: BTreeSet::new(),
            uploads: UploadTable::new(),
            caller: owner(),
            now: 1_000,
        }
    }

    fn set_caller(&mut self, caller: Principal) {
        self.caller = caller;
    }

    fn ctx(&self) -> Context {
        Context { root: self.root.clone(), caller: self.caller, now: self.now }
    }

    /// The name under which the volume keeps `name`: the name as it is.
    fn resolve(&self, name: &str) -> String {
        name.to_string()
    }

    fn sidecar(&self, path: &str) -> String {
        self.resolve(&file_info_path(&path.to_string()))
    }

    fn get_file_info(&self, path: &str) -> Option<FileInfo> {
        self.infos.get(&self.sidecar(path)).cloned()
    }

    fn set_file_info(&mut self, path: &str, info: FileInfo) {
        let key = self.sidecar(path);
        self.infos.insert(key, info);
    }

    /// The records that a request about `path` depends on.
    fn snapshot(&self, path: &String) -> Snapshot {
        let mut snapshot = Snapshot::new();
        for p in paths_to_read(&self.root, path) {
            if let Some(info) = self.get_file_info(&p) {
                snapshot.put(p, info);
            }
        }
        snapshot
    }

    /// What the names of all that lies in the directory `dir` begin with.
    fn inside(dir: &str) -> String {
        if dir.ends_with('/') {
            dir.to_string()
        } else {
            format!("{}/", dir)
        }
    }

    fn perform(&mut self, action: &Action) -> Result<(), (bool, String)> {
        match action {
            Action::Write { path, data } => {
                let at = self.resolve(path);
                if self.dirs.contains(&at) {
                    return Err((false, "is a directory".to_string()));
                }
                self.files.insert(at, data.clone());
                Ok(())
            }
            Action::Rename { from, to } => {
                let to = self.resolve(to);
                if self.dirs.contains(&to) {
                    return Err((false, "is a directory".to_string()));
                }
                match self.files.remove(&self.resolve(from)) {
                    Some(data) => {
                        self.files.insert(to, data);
                        Ok(())
                    }
                    None => Err((true, "not found".to_string())),
                }
            }
            Action::PutInfo { path, info } => {
                self.set_file_info(path, info.clone());
                Ok(())
            }
            Action::RemoveFile { path } => match self.files.remove(&self.resolve(path)) {
                Some(_) => Ok(()),
                None => Err((true, "not found".to_string())),
            },
            Action::RemoveInfo { path } => match self.infos.remove(&self.sidecar(path)) {
                Some(_) => Ok(()),
                None => Err((true, "not found".to_string())),
            },
            Action::CreateDir { path } => {
                if self.dirs.insert(self.resolve(path)) {
                    Ok(())
                } else {
                    Err((false, "already exists".to_string()))
                }
            }
            Action::RemoveDir { path, recursively } => {
                let dir = self.resolve(path);
                if !self.dirs.contains(&dir) {
                    return Err((true, "not found".to_string()));
                }
                let prefix = Volume::inside(&dir);
                let inside = |name: &String| name.starts_with(&prefix);
                let holds = self.files.keys().any(inside)
                    || self.infos.keys().any(inside)
                    || self.dirs.iter().any(inside);
                if holds && !*recursively {
                    return Err((false, "directory not empty".to_string()));
                }
                self.files.retain(|name, _| !inside(name));
                self.infos.retain(|name, _| !inside(name));
                self.dirs.retain(|name| !inside(name));
                self.dirs.remove(&dir);
                Ok(())
            }
            Action::EndUpload { path } => {
                self.uploads.remove(path);
                Ok(())
            }
        }
    }

    /// Performs a plan as a server does: in order, up to the first failure.
    fn run(&mut self, plan: Plan) -> Result<(), Error> {
        for action in plan.actions.iter() {
            if let Err((missing, detail)) = self.perform(action) {
                if let Some(error) = failure(action, missing, detail) {
                    return Err(error);
                }
            }
        }
        plan.reply
    }

    /// What the directory `path` holds: each name, and whether it is a directory.
    fn entries(&self, path: &str) -> Vec<(String, bool)> {
        let prefix = Volume::inside(&self.resolve(path));
        let mut entries = Vec::new();
        let direct = |name: &String| {
            name.len() > prefix.len() && name.starts_with(&prefix) && !name[prefix.len()..].contains('/')
        };
        for name in self.files.keys().chain(self.infos.keys()) {
            if direct(name) {
                entries.push((name[prefix.len()..].to_string(), false));
            }
        }
        for name in self.dirs.iter() {
            if direct(name) {
                entries.push((name[prefix.len()..].to_string(), true));
            }
        }
        entries
    }

    fn init_canistorage(&mut self) -> Result<(), Error> {
        let root = self.root.clone();
        let plan = init_canistorage(&self.ctx(), &self.snapshot(&root));
        self.run(plan)
    }

    fn save(&mut self, path: String, mimetype: String, data: Vec<u8>, overwrite: bool) -> Result<(), Error> {
        let plan = save(&self.ctx(), &self.snapshot(&path), &self.uploads, path, mimetype, data, overwrite);
        self.run(plan)
    }

    fn load(&self, path: String, start_at: u64) -> Result<Download, Error> {
        let snapshot = self.snapshot(&path);
        check_read(&self.ctx(), &snapshot, &path)?;
        let available = match self.files.get(&self.resolve(&path)) {
            Some(content) => {
                let from = (start_at as usize).min(content.len());
                let to = content.len().min(from + MAX_READ_SIZE);
                content[from..to].to_vec()
            }
            None => return Err(read_failure(true, "not found".to_string())),
        };
        load(&self.ctx(), &snapshot, path, start_at, available)
    }

    fn delete(&mut self, path: String) -> Result<(), Error> {
        let plan = delete(&self.ctx(), &self.snapshot(&path), path);
        self.run(plan)
    }

    fn list_files(&self, path: String) -> Result<Vec<String>, Error> {
        let snapshot = self.snapshot(&path);
        check_read(&self.ctx(), &snapshot, &path)?;
        let entries = self.entries(&path);
        list_files(&self.ctx(), &snapshot, path, entries)
    }

    fn create_directory(&mut self, path: String) -> Result<(), Error> {
        let plan = create_directory(&self.ctx(), &self.snapshot(&path), path);
        self.run(plan)
    }

    fn delete_directory(&mut self, path: String, recursively: bool) -> Result<(), Error> {
        let plan = delete_directory(&self.ctx(), &self.snapshot(&path), path, recursively);
        self.run(plan)
    }

    fn get_info(&self, path: String) -> Result<Info, Error> {
        get_info(&self.ctx(), &self.snapshot(&path), path)
    }

    fn has_permission(&self, path: String) -> Result<Permission, Error> {
        has_permission(&self.ctx(), &self.snapshot(&path), path)
    }

    fn add_permission(&mut self, path: String, who: Principal, m: bool, r: bool, w: bool) -> Result<(), Error> {
        let plan = add_permission(&self.ctx(), &self.snapshot(&path), path, who, m, r, w);
        self.run(plan)
    }

    fn remove_permission(&mut self, path: String, who: Principal, m: bool, r: bool, w: bool) -> Result<(), Error> {
        let plan = remove_permission(&self.ctx(), &self.snapshot(&path), path, who, m, r, w);
        self.run(plan)
    }

    fn begin_upload(&mut self, path: String, mimetype: String, overwrite: bool) -> Result<(), Error> {
        let ctx = self.ctx();
        let snapshot = self.snapshot(&path);
        begin_upload(&ctx, &snapshot, &mut self.uploads, path, mimetype, overwrite)
    }

    fn send_data(&mut self, path: String, start: u64, data: Vec<u8>) -> Result<u64, Error> {
        let ctx = self.ctx();
        send_data(&ctx, &mut self.uploads, path, start, data)
    }

    fn commit_upload(&mut self, path: String, size: u64, sha256: Option<[u8; 32]>) -> Result<(), Error> {
        let plan = commit_upload(&self.ctx(), &self.snapshot(&path), &self.uploads, path, size, sha256);
        self.run(plan)
    }

    fn cancel_upload(&mut self, path: String) -> Result<(), Error> {
        let ctx = self.ctx();
        cancel_upload(&ctx, &mut self.uploads, path)
    }

    fn get_info_for_poc(&self, path: String) -> Result<FileInfoForPoC, Error> {
        let info = self.get_file_info(&path);
        let mut children = Vec::new();
        if info.as_ref().is_some_and(|record| record.is_dir()) {
            let entries = self
                .entries(&path)
                .into_iter()
                .map(|(name, _)| (name.clone(), format!("{}{}", Volume::inside(&path), name)))
                .collect();
            for child in paths_to_dump(entries) {
                children.push(self.get_info_for_poc(child).unwrap());
            }
        }
        get_info_for_poc(path, info.as_ref(), children)
    }
}

fn digest(data: &[u8]) -> [u8; 32] {
    Sha256::digest(data).into()
}

#[test]
fn canistorage_test_save() {
    let mut context = setup();

    // new file
    let data = "Hello, World!".as_bytes().to_vec();
    let result = context.save("./.test/file.txt".to_string(), "text/plain".to_string(), data.clone(), false);
    assert!(result.is_ok());
    let result = context.load("./.test/file.txt".to_string(), 0);
    assert!(result.is_ok());
    assert_eq!(result.unwrap().chunk, data);

    // overwrite
    let data = "Hello, World!".as_bytes().to_vec();
    let result = context.save("./.test/file.txt".to_string(), "text/plain".to_string(), data.clone(), true);
    assert!(result.is_ok());
    let result = context.load("./.test/file.txt".to_string(), 0);
    assert!(result.is_ok());
    assert_eq!(result.unwrap().chunk, data);

    // error
    let result = context.save("./.test/file.txt".to_string(), "text/plain".to_string(), data.clone(), false);
    assert!(result.is_err());
    assert_eq!(result.unwrap_err().code, ERROR_ALREADY_EXISTS);
}

#[test]
fn canistorage_test_delete() {
    let mut context = setup();

    // new file
    let data = "Hello, World!".as_bytes().to_vec();
    let result = context.save("./.test/file.txt".to_string(), "text/plain".to_string(), data.clone(), false);
    assert!(result.is_ok());
    let result = context.load("./.test/file.txt".to_string(), 0);
    assert!(result.is_ok());
    assert_eq!(result.unwrap().chunk, data);

    // delete
    let result = context.delete("./.test/file.txt".to_string());
    assert!(result.is_ok());

    // delete (File not found)
    let result = context.delete("./.test/file.txt".to_string());
    assert_eq!(result.unwrap_err().code, ERROR_NOT_FOUND);
}

#[test]
fn canistorage_test_file_info() {
    let mut context = setup();
    let caller = context.caller;

    // Root
    let principal_readable = principal("f3umm-tovgf-tf7o6-o3oqc-iqlir-f6ufh-3lvrh-5wlic-6dmnu-gg4q7-6ae");
    let principal_writable = principal("ymtnq-243kz-shxxs-lfs7t-ihqhn-fntsv-wxvf3-kefpu-27hyr-wdczf-2ae");
    let file_info = FileInfo {
        size: 0,
        creator: caller,
        created_at: 0,
        updater: caller,
        updated_at: 0,
        mimetype: "".to_string(),
        manageable: Vec::new(),
        readable: vec![principal_readable],
        writable: vec![principal_writable],
        sha256: None,
        signature: None,
    };

    // Check of root
    let path = ROOT.to_string();
    context.set_file_info(&path, file_info.clone());
    let store = context.snapshot(&path);
    assert_eq!(check_read_permission(&principal_readable, &path, ROOT, &store), true);
    assert_eq!(check_read_permission(&principal_writable, &path, ROOT, &store), false);
    assert_eq!(check_write_permission(&principal_readable, &path, ROOT, &store), false);
    assert_eq!(check_write_permission(&principal_writable, &path, ROOT, &store), true);

    // Check children (no permission found; check parent)
    let path = format!("{}/child", ROOT);
    let store = context.snapshot(&path);
    assert_eq!(check_read_permission(&principal_readable, &path, ROOT, &store), true);
    assert_eq!(check_read_permission(&principal_writable, &path, ROOT, &store), false);
    assert_eq!(check_write_permission(&principal_readable, &path, ROOT, &store), false);
    assert_eq!(check_write_permission(&principal_writable, &path, ROOT, &store), true);

    // Check children (has permision)
    let principal_child_only = principal("xm4xy-wgdl4-jhtba-hmdt7-kocg2-y47gj-wuwwg-oqbva-tydcp-6bvxn-7qe");
    let file_info = FileInfo {
        size: 0,
        creator: caller,
        created_at: 0,
        updater: caller,
        updated_at: 0,
        mimetype: "".to_string(),
        manageable: Vec::new(),
        readable: vec![principal_child_only],
        writable: vec![principal_child_only],
        sha256: None,
        signature: None,
    };
    context.set_file_info(&path, file_info.clone());
    let store = context.snapshot(&path);
    assert_eq!(check_read_permission(&principal_child_only, &path, ROOT, &store), true);
    assert_eq!(check_write_permission(&principal_child_only, &path, ROOT, &store), true);
    // hasPermission because of parent (Inherited)
    assert_eq!(check_read_permission(&principal_readable, &path, ROOT, &store), true);
    assert_eq!(check_write_permission(&principal_writable, &path, ROOT, &store), true);
    // No permission
    assert_eq!(check_read_permission(&principal_writable, &path, ROOT, &store), false);
    assert_eq!(check_write_permission(&principal_readable, &path, ROOT, &store), false);
    // Nobody was granted the capability to manage
    assert_eq!(check_manage_permission(&principal_child_only, &path, ROOT, &store), false);
}

#[test]
fn canistorage_test_list_files() {
    let mut context = setup();

    // new file
    let data = "Hello, World!".as_bytes().to_vec();
    let result = context.save("./.test/file".to_string(), "text/plain".to_string(), data.clone(), false);
    assert!(result.is_ok());

    // new folder
    let result = context.create_directory("./.test/dir".to_string());
    assert!(result.is_ok());

    let result = context.list_files("./.test".to_string());
    assert!(result.is_ok());
    let list = result.unwrap();
    assert_eq!(list.len(), 2);
    assert_eq!(list, vec!["dir/".to_string(), "file".to_string()]);
}

#[test]
fn test_add_permission() {
    let mut context = setup();
    let owner = context.caller;

    // user
    let user = principal("aaikz-lv7jd-phj2u-t6r4n-6gne4-3rv3x-jus4j-zbiaz-llnsl-jvk5j-iqe");

    // manageable
    context.set_caller(owner);
    let result = context.add_permission(ROOT.to_string(), user, true, false, false);
    assert!(result.is_ok());
    context.set_caller(user);
    let permission = context.has_permission(ROOT.to_string()).unwrap();
    assert_eq!(permission.manageable, true);
    assert_eq!(permission.readable, false);
    assert_eq!(permission.writable, false);
    context.set_caller(owner);
    let result = context.remove_permission(ROOT.to_string(), user, true, false, false);
    assert!(result.is_ok());
    context.set_caller(user);
    let permission = context.has_permission(ROOT.to_string()).unwrap();
    assert_eq!(permission.manageable, false);
    assert_eq!(permission.readable, false);
    assert_eq!(permission.writable, false);

    // readable
    context.set_caller(owner);
    let result = context.add_permission(ROOT.to_string(), user, false, true, false);
    assert!(result.is_ok());
    context.set_caller(user);
    let permission = context.has_permission(ROOT.to_string()).unwrap();
    assert_eq!(permission.manageable, false);
    assert_eq!(permission.readable, true);
    assert_eq!(permission.writable, false);

    context.set_caller(owner);
    let result = context.remove_permission(ROOT.to_string(), user, true, true, false);
    assert!(result.is_ok());
    context.set_caller(user);
    let permission = context.has_permission(ROOT.to_string()).unwrap();
    assert_eq!(permission.manageable, false);
    assert_eq!(permission.readable, false);
    assert_eq!(permission.writable, false);

    // writable
    context.set_caller(owner);
    let result = context.add_permission(ROOT.to_string(), user, false, false, true);
    assert!(result.is_ok());
    context.set_caller(user);
    let permission = context.has_permission(ROOT.to_string()).unwrap();
    assert_eq!(permission.manageable, false);
    assert_eq!(permission.readable, false);
    assert_eq!(permission.writable, true);

    context.set_caller(owner);
    let result = context.remove_permission(ROOT.to_string(), user, true, false, true);
    assert!(result.is_ok());
    context.set_caller(user);
    let permission = context.has_permission(ROOT.to_string()).unwrap();
    assert_eq!(permission.manageable, false);
    assert_eq!(permission.readable, false);
    assert_eq!(permission.writable, false);

    // all
    context.set_caller(owner);
    let result = context.add_permission(ROOT.to_string(), user, true, true, true);
    assert!(result.is_ok());
    context.set_caller(user);
    let permission = context.has_permission(ROOT.to_string()).unwrap();
    assert_eq!(permission.manageable, true);
    assert_eq!(permission.readable, true);
    assert_eq!(permission.writable, true);

    // no remove
    context.set_caller(owner);
    let result = context.remove_permission(ROOT.to_string(), user, false, false, false);
    assert!(result.is_ok());
    context.set_caller(user);
    let permission = context.has_permission(ROOT.to_string()).unwrap();
    assert_eq!(permission.manageable, true);
    assert_eq!(permission.readable, true);
    assert_eq!(permission.writable, true);

    // remove
    context.set_caller(owner);
    let result = context.remove_permission(ROOT.to_string(), user, true, true, true);
    assert!(result.is_ok());
    context.set_caller(user);
    let permission = context.has_permission(ROOT.to_string()).unwrap();
    assert_eq!(permission.manageable, false);
    assert_eq!(permission.readable, false);
    assert_eq!(permission.writable, false);
}

#[test]
fn test_remove_permission() {
    let mut context = setup();
    let owner = context.caller;
    let user = principal("aaikz-lv7jd-phj2u-t6r4n-6gne4-3rv3x-jus4j-zbiaz-llnsl-jvk5j-iqe");

    // revoking what was never granted changes nothing
    let before = context.get_file_info(ROOT).unwrap();
    assert!(context.remove_permission(ROOT.to_string(), user, true, true, true).is_ok());
    let after = context.get_file_info(ROOT).unwrap();
    assert_eq!(after.manageable, before.manageable);
    assert_eq!(after.readable, before.readable);
    assert_eq!(after.writable, before.writable);

    // the owner stays when somebody else is revoked
    assert!(context.add_permission(ROOT.to_string(), user, true, true, true).is_ok());
    assert!(context.remove_permission(ROOT.to_string(), user, false, true, false).is_ok());
    let after = context.get_file_info(ROOT).unwrap();
    assert!(after.manageable.contains(&user) && after.manageable.contains(&owner));
    assert_eq!(after.readable, vec![owner]);
    assert!(after.writable.contains(&user) && after.writable.contains(&owner));

    // who may not manage may not revoke
    context.set_caller(principal("f3umm-tovgf-tf7o6-o3oqc-iqlir-f6ufh-3lvrh-5wlic-6dmnu-gg4q7-6ae"));
    let result = context.remove_permission(ROOT.to_string(), owner, true, true, true);
    assert_eq!(result.unwrap_err().code, ERROR_PERMISSION_DENIED);

    // no node, nothing to revoke
    context.set_caller(owner);
    let result = context.remove_permission("./.test/none".to_string(), user, true, true, true);
    assert_eq!(result.unwrap_err().code, ERROR_NOT_FOUND);
}

#[test]
fn test_has_permission() {
    let mut context = setup();
    let user = principal("aaikz-lv7jd-phj2u-t6r4n-6gne4-3rv3x-jus4j-zbiaz-llnsl-jvk5j-iqe");

    let held = context.has_permission(ROOT.to_string()).unwrap();
    assert!(held.manageable && held.readable && held.writable);

    // a node that is not there has no permissions to report
    let result = context.has_permission("./.test/none".to_string());
    assert_eq!(result.unwrap_err().code, ERROR_NOT_FOUND);
    let result = context.has_permission("elsewhere".to_string());
    assert_eq!(result.unwrap_err().code, ERROR_INVALID_PATH);

    // what the root grants holds below it
    assert!(context.create_directory("./.test/dir".to_string()).is_ok());
    assert!(context.add_permission(ROOT.to_string(), user, false, true, false).is_ok());
    context.set_caller(user);
    let held = context.has_permission("./.test/dir".to_string()).unwrap();
    assert_eq!((held.manageable, held.readable, held.writable), (false, true, false));
}

#[test]
fn test_upload() {
    let mut context = setup();
    let path = "./.test/file.txt".to_string();
    let result = context.begin_upload(path.clone(), "text/plain".to_string(), false);
    assert!(result.is_ok());

    let mut index = 0 as u64;
    let data = "AAA".as_bytes().to_vec();
    let result = context.send_data(path.clone(), index, data.clone());
    index += data.len() as u64;
    assert!(result.is_ok());
    assert_eq!(result.unwrap(), index);

    let data = "BBBB".as_bytes().to_vec();
    let result = context.send_data(path.clone(), index, data.clone());
    index += data.len() as u64;
    assert!(result.is_ok());
    assert_eq!(result.unwrap(), index);

    let data = "CCCCC".as_bytes().to_vec();
    let result = context.send_data(path.clone(), index, data.clone());
    index += data.len() as u64;
    assert!(result.is_ok());
    assert_eq!(result.unwrap(), index);

    let expected = "AAABBBBCCCCC".as_bytes();
    assert_eq!(index, expected.len() as u64);
    let result = context.commit_upload(path.clone(), index, Some(Sha256::digest(expected).into()));
    assert!(result.is_ok());

    let result = context.load(path.clone(), 0);
    assert!(result.is_ok());
    assert_eq!(result.unwrap().chunk, expected);
}

#[test]
fn test_load_save_large_file() {
    let mut context = setup();

    // save large file
    let path = "./.test/learge_file.bin".to_string();

    // Begin
    let result = context.begin_upload(path.clone(), "application/octet-stream".to_string(), false);
    assert!(result.is_ok());

    // Send
    let mut index = 0 as u64;
    let mut hasher = Sha256::new();
    for i in "Hello, world".chars() {
        let buffer = vec![i as u8; MAX_READ_SIZE];
        hasher.update(&buffer);
        let result = context.send_data(path.clone(), index, buffer.to_vec());
        assert!(result.is_ok());
        index += buffer.len() as u64;
        assert_eq!(result.unwrap(), index);
    }

    // Commit
    let result = context.commit_upload(path.clone(), index, Some(hasher.finalize().into()));
    assert!(result.is_ok());

    // Verify
    let info = context.get_info(path.clone()).unwrap();
    assert_eq!(info.size, index);

    // Load large file
    let mut start_at = 0;
    let mut hasher = Sha256::new();
    let download = loop {
        let result = context.load(path.clone(), start_at);
        assert!(result.is_ok());
        let download = result.unwrap();
        start_at = download.downloaded_at;
        hasher.update(&download.chunk);

        if info.size == download.downloaded_at {
            break download;
        }
    };

    assert_eq!(download.sha256.unwrap(), hasher.finalize().as_slice());
}

/// A store rooted at `/`, on a volume that holds the root directory and nothing else.
fn production() -> Volume {
    let mut volume = Volume::empty("/");
    volume.dirs.insert("/".to_string());
    volume
}

#[test]
fn init_makes_the_caller_the_owner_once() {
    let mut volume = production();
    assert!(volume.init_canistorage().is_ok());
    let root = volume.get_file_info("/").unwrap();
    assert!(root.is_dir());
    assert_eq!(root.size, 0);
    assert_eq!(root.creator, owner());
    assert_eq!(root.updater, owner());
    assert_eq!((root.created_at, root.updated_at), (1_000, 1_000));
    assert_eq!(root.manageable, vec![owner()]);
    assert_eq!(root.readable, vec![owner()]);
    assert_eq!(root.writable, vec![owner()]);
    assert_eq!(root.sha256, None);
    let again = volume.init_canistorage();
    assert_eq!(again.unwrap_err().code, ERROR_ALREADY_INITIALIZED);
}

#[test]
fn init_refuses_the_anonymous_caller() {
    let mut volume = production();
    volume.set_caller(Principal::anonymous());
    let result = volume.init_canistorage();
    assert_eq!(result.unwrap_err().code, ERROR_PERMISSION_DENIED);
    assert!(volume.get_file_info("/").is_none());
}

#[test]
fn save_then_load_a_small_file() {
    let mut volume = production();
    volume.init_canistorage().unwrap();
    let result = volume.save("/a.txt".to_string(), "text/plain".to_string(), b"Hello".to_vec(), false);
    assert!(result.is_ok());
    let download = volume.load("/a.txt".to_string(), 0).unwrap();
    assert_eq!(download.chunk, b"Hello".to_vec());
    assert_eq!(download.size, 5);
    assert_eq!(download.downloaded_at, 5);
    assert_eq!(download.sha256, Some(digest(b"Hello")));
    let info = volume.get_info("/a.txt".to_string()).unwrap();
    assert_eq!(info.size, 5);
    assert_eq!(info.sha256, Some(digest(b"Hello")));
    assert_eq!(info.mimetype, "text/plain");
    assert_eq!(info.creator, owner());
    assert_eq!(info.updated_at, 1_000);
    // the content went through the staging name and was renamed into place
    assert!(volume.files.contains_key("/a.txt"));
    assert!(!volume.files.contains_key("/``a.txt"));
    assert!(volume.infos.contains_key("/`a.txt"));
}

#[test]
fn the_root_holds_what_lies_in_it() {
    let mut volume = production();
    volume.init_canistorage().unwrap();
    // no record lies under the empty path, and none is asked for
    assert!(volume.get_file_info("").is_none());
    assert!(volume.save("/a.txt".to_string(), "text/plain".to_string(), b"Hello".to_vec(), false).is_ok());
    assert!(volume.create_directory("/d".to_string()).is_ok());
    assert!(volume.begin_upload("/b.bin".to_string(), "text/plain".to_string(), false).is_ok());
    assert!(volume.infos.keys().all(|name| name.starts_with('/')));
    // below the root a node is held by what stands before its last `/`
    assert!(volume.save("/d/a.txt".to_string(), "text/plain".to_string(), vec![1], false).is_ok());
    let lost = volume.save("/e/a.txt".to_string(), "text/plain".to_string(), vec![1], false);
    assert_eq!(lost.unwrap_err().code, ERROR_NOT_FOUND);
    // a root that is no directory holds nothing
    let mut root = volume.get_file_info("/").unwrap();
    root.mimetype = "text/plain".to_string();
    volume.set_file_info("/", root);
    let refused = volume.save("/c.txt".to_string(), "text/plain".to_string(), vec![1], false);
    assert_eq!(refused.unwrap_err().code, ERROR_NOT_FOUND);
    let refused = volume.create_directory("/e".to_string());
    assert_eq!(refused.unwrap_err().code, ERROR_NOT_FOUND);
}

#[test]
fn save_without_overwrite_fails_on_a_file_that_is_there() {
    let mut volume = production();
    volume.init_canistorage().unwrap();
    volume.save("/a.txt".to_string(), "text/plain".to_string(), b"Hello".to_vec(), false).unwrap();
    let second = volume.save("/a.txt".to_string(), "text/plain".to_string(), b"Bye".to_vec(), false);
    assert_eq!(second.unwrap_err().code, 2);
    assert_eq!(volume.load("/a.txt".to_string(), 0).unwrap().chunk, b"Hello".to_vec());
}

#[test]
fn save_over_a_file_keeps_its_creator_and_lists() {
    let mut volume = production();
    volume.init_canistorage().unwrap();
    let user = principal("aaikz-lv7jd-phj2u-t6r4n-6gne4-3rv3x-jus4j-zbiaz-llnsl-jvk5j-iqe");
    volume.save("/a.txt".to_string(), "text/plain".to_string(), b"one".to_vec(), false).unwrap();
    volume.add_permission("/a.txt".to_string(), user, false, true, true).unwrap();
    volume.set_caller(user);
    volume.now = 2_000;
    volume.save("/a.txt".to_string(), "text/html".to_string(), b"three".to_vec(), true).unwrap();
    let info = volume.get_file_info("/a.txt").unwrap();
    assert_eq!(info.creator, owner());
    assert_eq!(info.created_at, 1_000);
    assert_eq!(info.updater, user);
    assert_eq!(info.updated_at, 2_000);
    assert_eq!(info.mimetype, "text/html");
    assert_eq!(info.size, 5);
    assert_eq!(info.sha256, Some(digest(b"three")));
    assert_eq!(info.readable, vec![user]);
    assert_eq!(info.writable, vec![user]);
    assert_eq!(info.signature, None);
}

#[test]
fn save_refuses_reserved_media_types() {
    let mut volume = production();
    volume.init_canistorage().unwrap();
    let empty = volume.save("/a".to_string(), "".to_string(), vec![1], true);
    assert_eq!(empty.unwrap_err().code, ERROR_INVALID_MIMETYPE);
    let sentinel = volume.save("/a".to_string(), "canistorage/directory".to_string(), vec![1], true);
    assert_eq!(sentinel.unwrap_err().code, ERROR_INVALID_MIMETYPE);
    let empty = volume.begin_upload("/a".to_string(), "".to_string(), true);
    assert_eq!(empty.unwrap_err().code, ERROR_INVALID_MIMETYPE);
    let sentinel = volume.begin_upload("/a".to_string(), "canistorage/directory".to_string(), true);
    assert_eq!(sentinel.unwrap_err().code, ERROR_INVALID_MIMETYPE);
    assert!(volume.files.is_empty());
}

#[test]
fn save_checks_in_order_path_permission_media_type() {
    let mut volume = production();
    volume.init_canistorage().unwrap();
    volume.set_caller(principal("aaikz-lv7jd-phj2u-t6r4n-6gne4-3rv3x-jus4j-zbiaz-llnsl-jvk5j-iqe"));
    let result = volume.save("/a/../b".to_string(), "".to_string(), vec![], false);
    assert_eq!(result.unwrap_err().code, ERROR_INVALID_PATH);
    let result = volume.save("/a".to_string(), "".to_string(), vec![], false);
    assert_eq!(result.unwrap_err().code, ERROR_PERMISSION_DENIED);
}

#[test]
fn save_needs_a_directory_above_a_new_file() {
    let mut volume = production();
    volume.init_canistorage().unwrap();
    let result = volume.save("/none/a.txt".to_string(), "text/plain".to_string(), vec![1], false);
    assert_eq!(result.unwrap_err().code, ERROR_NOT_FOUND);
    volume.save("/file".to_string(), "text/plain".to_string(), vec![1], false).unwrap();
    let result = volume.save("/file/a.txt".to_string(), "text/plain".to_string(), vec![1], false);
    assert_eq!(result.unwrap_err().code, ERROR_NOT_FOUND);
}

#[test]
fn save_is_refused_while_an_upload_runs() {
    let mut volume = production();
    volume.init_canistorage().unwrap();
    volume.begin_upload("/a".to_string(), "text/plain".to_string(), false).unwrap();
    let result = volume.save("/a".to_string(), "text/plain".to_string(), vec![1], true);
    assert_eq!(result.unwrap_err().code, ERROR_ALREADY_EXISTS);
    // an upload that has expired is in nobody's way
    volume.now += 600_001;
    let result = volume.save("/a".to_string(), "text/plain".to_string(), vec![1], true);
    assert!(result.is_ok());
}

#[test]
fn a_volume_that_fails_is_reported_as_unknown() {
    let mut volume = production();
    volume.init_canistorage().unwrap();
    volume.create_directory("/d".to_string()).unwrap();
    volume.set_file_info("/d", {
        let mut info = volume.get_file_info("/d").unwrap();
        info.mimetype = "text/plain".to_string();
        info
    });
    // the record says file, the volume holds a directory: the rename fails
    let result = volume.save("/d".to_string(), "text/plain".to_string(), vec![1], true);
    assert_eq!(result.unwrap_err().code, ERROR_UNKNOWN);
    assert_eq!(ERROR_UNKNOWN, u32::MAX);
}

#[test]
fn upload_in_reverse_order() {
    let mut volume = production();
    volume.init_canistorage().unwrap();
    let path = "/b.bin".to_string();
    volume.begin_upload(path.clone(), "application/octet-stream".to_string(), false).unwrap();
    assert_eq!(volume.send_data(path.clone(), 8, b"CCCCC".to_vec()).unwrap(), 5);
    assert_eq!(volume.send_data(path.clone(), 0, b"AAA".to_vec()).unwrap(), 8);
    assert_eq!(volume.send_data(path.clone(), 3, b"BBBBB".to_vec()).unwrap(), 13);
    let result = volume.commit_upload(path.clone(), 13, Some(digest(b"AAABBBBBCCCCC")));
    assert!(result.is_ok());
    let download = volume.load(path.clone(), 0).unwrap();
    assert_eq!(download.chunk, b"AAABBBBBCCCCC".to_vec());
    assert_eq!(download.sha256, Some(digest(b"AAABBBBBCCCCC")));
    let info = volume.get_info(path.clone()).unwrap();
    assert_eq!(info.size, 13);
    assert_eq!(info.mimetype, "application/octet-stream");
    // the upload is over
    assert!(volume.uploads.get(&path).is_none());
    let again = volume.commit_upload(path, 13, None);
    assert_eq!(again.unwrap_err().code, ERROR_INVALID_SEQUENCE);
}

#[test]
fn commit_with_the_wrong_digest() {
    let mut volume = production();
    volume.init_canistorage().unwrap();
    let path = "/b.bin".to_string();
    volume.begin_upload(path.clone(), "application/octet-stream".to_string(), false).unwrap();
    volume.send_data(path.clone(), 0, b"AAA".to_vec()).unwrap();
    let result = volume.commit_upload(path.clone(), 3, Some(digest(b"BBB")));
    assert_eq!(result.unwrap_err().code, 8);
    assert_eq!(ERROR_INVALID_HASH, 8);
    // the node is not there, the staged content is, and the upload goes on
    assert_eq!(volume.load(path.clone(), 0).unwrap_err().code, ERROR_NOT_FOUND);
    assert!(volume.get_file_info(&path).is_none());
    assert_eq!(volume.files.get("/``b.bin"), Some(&b"AAA".to_vec()));
    assert!(volume.uploads.get(&path).is_some());
    // without a digest to compare with, the same pieces are accepted
    assert!(volume.commit_upload(path.clone(), 3, None).is_ok());
    assert_eq!(volume.get_info(path).unwrap().sha256, Some(digest(b"AAA")));
}

#[test]
fn commit_with_a_gap_between_the_pieces() {
    let mut volume = production();
    volume.init_canistorage().unwrap();
    let path = "/b.bin".to_string();
    volume.begin_upload(path.clone(), "application/octet-stream".to_string(), false).unwrap();
    volume.send_data(path.clone(), 0, b"AAA".to_vec()).unwrap();
    volume.send_data(path.clone(), 4, b"BB".to_vec()).unwrap();
    let result = volume.commit_upload(path.clone(), 5, None);
    assert_eq!(result.unwrap_err().code, ERROR_INVALID_SIZE);
    assert_eq!(volume.files.get("/``b.bin"), Some(&b"AAA".to_vec()));
    assert!(volume.get_file_info(&path).is_none());
    // a declared size that the upload does not hold is a fault of sequence
    let result = volume.commit_upload(path.clone(), 6, None);
    assert_eq!(result.unwrap_err().code, ERROR_INVALID_SEQUENCE);
    // an empty piece where the next one is due leads nowhere
    volume.cancel_upload(path.clone()).unwrap();
    volume.begin_upload(path.clone(), "application/octet-stream".to_string(), false).unwrap();
    volume.send_data(path.clone(), 0, vec![]).unwrap();
    volume.send_data(path.clone(), 1, b"B".to_vec()).unwrap();
    let result = volume.commit_upload(path, 1, None);
    assert_eq!(result.unwrap_err().code, ERROR_INVALID_SIZE);
}

#[test]
fn a_piece_sent_twice_counts_once() {
    let mut volume = production();
    volume.init_canistorage().unwrap();
    let path = "/b.bin".to_string();
    volume.begin_upload(path.clone(), "application/octet-stream".to_string(), false).unwrap();
    assert_eq!(volume.send_data(path.clone(), 0, b"AAAA".to_vec()).unwrap(), 4);
    assert_eq!(volume.send_data(path.clone(), 0, b"BB".to_vec()).unwrap(), 2);
    assert_eq!(volume.send_data(path.clone(), 2, b"CCC".to_vec()).unwrap(), 5);
    assert!(volume.commit_upload(path.clone(), 5, Some(digest(b"BBCCC"))).is_ok());
    assert_eq!(volume.load(path, 0).unwrap().chunk, b"BBCCC".to_vec());
}

#[test]
fn an_upload_belongs_to_who_began_it() {
    let mut volume = production();
    volume.init_canistorage().unwrap();
    let user = principal("aaikz-lv7jd-phj2u-t6r4n-6gne4-3rv3x-jus4j-zbiaz-llnsl-jvk5j-iqe");
    let path = "/b.bin".to_string();
    let none = volume.send_data(path.clone(), 0, vec![1]);
    assert_eq!(none.unwrap_err().code, ERROR_INVALID_SEQUENCE);
    assert_eq!(volume.cancel_upload(path.clone()).unwrap_err().code, ERROR_INVALID_SEQUENCE);
    volume.begin_upload(path.clone(), "text/plain".to_string(), false).unwrap();
    let second = volume.begin_upload(path.clone(), "text/plain".to_string(), false);
    assert_eq!(second.unwrap_err().code, ERROR_ALREADY_EXISTS);
    volume.set_caller(user);
    assert_eq!(volume.send_data(path.clone(), 0, vec![1]).unwrap_err().code, ERROR_INVALID_SEQUENCE);
    assert_eq!(volume.commit_upload(path.clone(), 0, None).unwrap_err().code, ERROR_INVALID_SEQUENCE);
    assert_eq!(volume.cancel_upload(path.clone()).unwrap_err().code, ERROR_INVALID_SEQUENCE);
    volume.set_caller(owner());
    assert!(volume.cancel_upload(path.clone()).is_ok());
    assert!(volume.uploads.get(&path).is_none());
}

#[test]
fn an_upload_expires_after_ten_minutes() {
    let mut volume = production();
    volume.init_canistorage().unwrap();
    let user = principal("aaikz-lv7jd-phj2u-t6r4n-6gne4-3rv3x-jus4j-zbiaz-llnsl-jvk5j-iqe");
    volume.add_permission("/".to_string(), user, false, false, true).unwrap();
    let path = "/b.bin".to_string();
    volume.begin_upload(path.clone(), "text/plain".to_string(), false).unwrap();
    // ten minutes to the millisecond is not yet too long
    volume.now += 600_000;
    assert_eq!(volume.send_data(path.clone(), 0, b"AAA".to_vec()).unwrap(), 3);
    volume.now += 601_000;
    let late = volume.send_data(path.clone(), 3, b"BBB".to_vec());
    assert_eq!(late.unwrap_err().code, 5);
    let late = volume.commit_upload(path.clone(), 3, None);
    assert_eq!(late.unwrap_err().code, ERROR_PERMISSION_DENIED);
    // whoever may write there may begin anew
    volume.set_caller(user);
    assert!(volume.begin_upload(path.clone(), "text/plain".to_string(), false).is_ok());
    let session = volume.uploads.get(&path).unwrap();
    assert_eq!(session.owner, user);
    assert_eq!(session.size, 0);
    assert!(session.chunk.is_empty());
}

#[test]
fn an_upload_expires_one_millisecond_after_ten_minutes() {
    let mut volume = production();
    volume.init_canistorage().unwrap();
    let path = "/b.bin".to_string();
    volume.begin_upload(path.clone(), "text/plain".to_string(), false).unwrap();
    volume.now += 600_001;
    assert_eq!(volume.send_data(path.clone(), 0, vec![1]).unwrap_err().code, ERROR_PERMISSION_DENIED);
    assert_eq!(volume.commit_upload(path.clone(), 0, None).unwrap_err().code, ERROR_PERMISSION_DENIED);
    // a clock that runs backwards expires nothing
    volume.now = 0;
    assert_eq!(volume.send_data(path.clone(), 0, vec![1]).unwrap(), 1);
    // the owner may still drop an upload that has expired
    volume.now = 10_000_000;
    assert!(volume.cancel_upload(path).is_ok());
}

#[test]
fn an_upload_counts_no_further_than_64_bits() {
    let mut volume = production();
    volume.init_canistorage().unwrap();
    let path = "/b.bin".to_string();
    volume.uploads.insert(
        path.clone(),
        Uploading {
            owner: owner(),
            size: u64::MAX - 1,
            updated_at: volume.now,
            mimetype: "text/plain".to_string(),
            chunk: HashMap::from([(7, vec![1, 2, 3])]),
        },
    );
    assert_eq!(volume.send_data(path.clone(), 0, vec![1, 2]).unwrap_err().code, ERROR_INVALID_SIZE);
    assert_eq!(volume.uploads.get(&path).unwrap().size, u64::MAX - 1);
    assert_eq!(volume.send_data(path.clone(), 0, vec![1]).unwrap(), u64::MAX);
    // a piece that takes the place of a longer one makes room again
    assert_eq!(volume.send_data(path.clone(), 7, vec![]).unwrap(), u64::MAX - 3);
}

#[test]
fn beginning_an_upload_sweeps_the_expired_ones() {
    let mut volume = production();
    volume.init_canistorage().unwrap();
    volume.begin_upload("/old".to_string(), "text/plain".to_string(), false).unwrap();
    volume.now += 300_000;
    volume.begin_upload("/young".to_string(), "text/plain".to_string(), false).unwrap();
    volume.now += 300_001;
    // a request that does not come as far as the table leaves it alone
    let refused = volume.begin_upload("/x".to_string(), "".to_string(), false);
    assert_eq!(refused.unwrap_err().code, ERROR_INVALID_MIMETYPE);
    assert!(volume.uploads.get("/old").is_some());
    // one that does sweeps, whatever becomes of it
    let refused = volume.begin_upload("/none/x".to_string(), "text/plain".to_string(), false);
    assert_eq!(refused.unwrap_err().code, ERROR_NOT_FOUND);
    assert!(volume.uploads.get("/old").is_none());
    assert!(volume.uploads.get("/young").is_some());
}

#[test]
fn permissions_are_inherited() {
    let mut volume = production();
    volume.init_canistorage().unwrap();
    let reader = principal("f3umm-tovgf-tf7o6-o3oqc-iqlir-f6ufh-3lvrh-5wlic-6dmnu-gg4q7-6ae");
    let other = principal("ymtnq-243kz-shxxs-lfs7t-ihqhn-fntsv-wxvf3-kefpu-27hyr-wdczf-2ae");
    volume.create_directory("/d".to_string()).unwrap();
    volume.create_directory("/d/sub".to_string()).unwrap();
    volume.add_permission("/d".to_string(), reader, false, true, false).unwrap();
    volume.set_caller(reader);
    assert_eq!(volume.list_files("/d/sub".to_string()).unwrap(), Vec::<String>::new());
    assert_eq!(volume.list_files("/d".to_string()).unwrap(), vec!["sub/".to_string()]);
    assert_eq!(volume.list_files("/".to_string()).unwrap_err().code, ERROR_PERMISSION_DENIED);
    volume.set_caller(other);
    assert_eq!(volume.list_files("/d/sub".to_string()).unwrap_err().code, 5);
}

#[test]
fn listing_is_in_order_and_hides_what_belongs_to_the_store() {
    let mut volume = production();
    volume.init_canistorage().unwrap();
    volume.create_directory("/d".to_string()).unwrap();
    for name in ["b", "a", "ab", "B", "c.txt"] {
        volume.save(format!("/d/{}", name), "text/plain".to_string(), vec![1], false).unwrap();
    }
    volume.create_directory("/d/a0".to_string()).unwrap();
    volume.begin_upload("/d/z".to_string(), "text/plain".to_string(), false).unwrap();
    volume.send_data("/d/z".to_string(), 1, vec![1]).unwrap();
    assert_eq!(volume.commit_upload("/d/z".to_string(), 1, None).unwrap_err().code, ERROR_INVALID_SIZE);
    assert!(volume.files.contains_key("/d/``z"));
    let names = volume.list_files("/d".to_string()).unwrap();
    assert_eq!(names, vec!["B", "a", "a0/", "ab", "b", "c.txt"]);
    assert_eq!(volume.list_files("/none".to_string()).unwrap_err().code, ERROR_NOT_FOUND);
}

#[test]
fn directories_are_created_and_deleted() {
    let mut volume = production();
    volume.init_canistorage().unwrap();
    volume.now = 5_000;
    assert!(volume.create_directory("/d".to_string()).is_ok());
    let info = volume.get_file_info("/d").unwrap();
    assert_eq!(info.mimetype, MIMETYPE_DIRECTORY);
    assert_eq!((info.size, info.created_at, info.updated_at), (0, 5_000, 5_000));
    assert!(info.manageable.is_empty() && info.readable.is_empty() && info.writable.is_empty());
    assert_eq!(info.sha256, None);
    assert_eq!(volume.get_info("/d".to_string()).unwrap().mimetype, "canistorage/directory");
    assert_eq!(volume.create_directory("/d".to_string()).unwrap_err().code, ERROR_ALREADY_EXISTS);
    assert_eq!(volume.create_directory("/x/y".to_string()).unwrap_err().code, ERROR_NOT_FOUND);
    assert_eq!(volume.create_directory("/d/".to_string()).unwrap_err().code, ERROR_INVALID_PATH);
    volume.save("/d/f".to_string(), "text/plain".to_string(), vec![1], false).unwrap();
    // a directory that holds something goes only with all that is in it
    assert_eq!(volume.delete_directory("/d".to_string(), false).unwrap_err().code, ERROR_UNKNOWN);
    assert!(volume.get_file_info("/d").is_some());
    assert!(volume.delete_directory("/d".to_string(), true).is_ok());
    assert!(volume.get_file_info("/d").is_none());
    assert!(volume.get_file_info("/d/f").is_none());
    assert!(!volume.files.contains_key("/d/f"));
    assert_eq!(volume.delete_directory("/d".to_string(), true).unwrap_err().code, ERROR_NOT_FOUND);
}

#[test]
fn deleting_a_directory_takes_the_capability_to_read() {
    let mut volume = production();
    volume.init_canistorage().unwrap();
    let reader = principal("f3umm-tovgf-tf7o6-o3oqc-iqlir-f6ufh-3lvrh-5wlic-6dmnu-gg4q7-6ae");
    let writer = principal("ymtnq-243kz-shxxs-lfs7t-ihqhn-fntsv-wxvf3-kefpu-27hyr-wdczf-2ae");
    volume.create_directory("/d".to_string()).unwrap();
    volume.add_permission("/d".to_string(), reader, false, true, false).unwrap();
    volume.add_permission("/d".to_string(), writer, false, false, true).unwrap();
    volume.set_caller(writer);
    assert_eq!(volume.delete_directory("/d".to_string(), false).unwrap_err().code, ERROR_PERMISSION_DENIED);
    volume.set_caller(reader);
    assert!(volume.delete_directory("/d".to_string(), false).is_ok());
}

#[test]
fn delete_takes_the_capability_to_write() {
    let mut volume = production();
    volume.init_canistorage().unwrap();
    let reader = principal("f3umm-tovgf-tf7o6-o3oqc-iqlir-f6ufh-3lvrh-5wlic-6dmnu-gg4q7-6ae");
    volume.save("/f".to_string(), "text/plain".to_string(), vec![1], false).unwrap();
    volume.add_permission("/f".to_string(), reader, false, true, false).unwrap();
    volume.set_caller(reader);
    assert_eq!(volume.delete("/f".to_string()).unwrap_err().code, ERROR_PERMISSION_DENIED);
    assert_eq!(volume.delete("/f`".to_string()).unwrap_err().code, ERROR_INVALID_PATH);
    volume.set_caller(owner());
    assert!(volume.delete("/f".to_string()).is_ok());
    assert!(volume.get_file_info("/f").is_none());
    assert_eq!(volume.get_info("/f".to_string()).unwrap_err().code, ERROR_NOT_FOUND);
}

#[test]
fn granting_twice_names_once() {
    let mut volume = production();
    volume.init_canistorage().unwrap();
    let a = principal("f3umm-tovgf-tf7o6-o3oqc-iqlir-f6ufh-3lvrh-5wlic-6dmnu-gg4q7-6ae");
    let b = principal("ymtnq-243kz-shxxs-lfs7t-ihqhn-fntsv-wxvf3-kefpu-27hyr-wdczf-2ae");
    let short = Principal::try_from_slice(&[9, 9]).unwrap();
    for who in [b, a, short, b, a] {
        volume.add_permission("/".to_string(), who, true, true, true).unwrap();
        volume.add_permission("/".to_string(), who, true, true, true).unwrap();
    }
    let root = volume.get_file_info("/").unwrap();
    for list in [&root.manageable, &root.readable, &root.writable] {
        assert_eq!(list.len(), 4);
        for who in [a, b, short, owner()] {
            assert_eq!(list.iter().filter(|p| **p == who).count(), 1);
        }
        // the shorter identity first, and then by the bytes
        let mut sorted: Vec<candid::Principal> =
            list.iter().map(|p| candid::Principal::from_slice(&p.to_vec())).collect();
        sorted.sort();
        let expected: Vec<Principal> =
            sorted.iter().map(|p| Principal::try_from_slice(p.as_slice()).unwrap()).collect();
        assert_eq!(**list, expected);
        assert_eq!(list[0], short);
    }
}

#[test]
fn ranged_reads_cover_the_content() {
    let mut volume = production();
    volume.init_canistorage().unwrap();
    let content: Vec<u8> = (0..(2 * MAX_READ_SIZE + 10)).map(|i| (i % 251) as u8).collect();
    volume.save("/big".to_string(), "application/octet-stream".to_string(), content.clone(), false).unwrap();
    let first = volume.load("/big".to_string(), 0).unwrap();
    assert_eq!(first.chunk.len(), 1_048_576);
    assert_eq!(first.chunk[..], content[..MAX_READ_SIZE]);
    assert_eq!(first.downloaded_at, 1_048_576);
    assert_eq!(first.size, 2_097_162);
    assert_eq!(first.sha256, None);
    let mut joined = first.chunk.clone();
    let mut at = first.downloaded_at;
    let mut rounds = 1;
    let last = loop {
        let next = volume.load("/big".to_string(), at).unwrap();
        joined.extend_from_slice(&next.chunk);
        at = next.downloaded_at;
        rounds += 1;
        if next.downloaded_at == next.size {
            break next;
        }
        assert_eq!(next.sha256, None);
    };
    assert_eq!(rounds, 3);
    assert_eq!(joined, content);
    assert_eq!(last.sha256, Some(digest(&content)));
    // reading from the end on returns nothing, and the digest
    let beyond = volume.load("/big".to_string(), 2_097_162).unwrap();
    assert!(beyond.chunk.is_empty());
    assert_eq!(beyond.sha256, Some(digest(&content)));
    // an empty file is read in one round
    volume.save("/none".to_string(), "text/plain".to_string(), vec![], false).unwrap();
    let empty = volume.load("/none".to_string(), 0).unwrap();
    assert_eq!((empty.size, empty.downloaded_at), (0, 0));
    assert_eq!(empty.sha256, Some(digest(b"")));
}

#[test]
fn load_cuts_what_it_is_handed_to_one_piece() {
    let volume = setup();
    let mut store = Snapshot::new();
    store.put(ROOT.to_string(), directory(owner()));
    let mut file = directory(owner());
    file.mimetype = "text/plain".to_string();
    file.size = 2_000_000;
    file.sha256 = Some([7; 32]);
    store.put("./.test/f".to_string(), file);
    let handed = vec![3u8; 2_000_000];
    let download = load(&volume.ctx(), &store, "./.test/f".to_string(), 0, handed).unwrap();
    assert_eq!(download.chunk.len(), MAX_READ_SIZE);
    assert_eq!(download.downloaded_at, 1_048_576);
    assert_eq!(download.sha256, None);
    let rest = load(&volume.ctx(), &store, "./.test/f".to_string(), 1_048_576, vec![3u8; 951_424]).unwrap();
    assert_eq!(rest.downloaded_at, 2_000_000);
    assert_eq!(rest.sha256, Some([7; 32]));
    let past = load(&volume.ctx(), &store, "./.test/f".to_string(), u64::MAX, vec![1]);
    assert_eq!(past.unwrap_err().code, ERROR_UNKNOWN);
    let denied = {
        let mut ctx = volume.ctx();
        ctx.caller = Principal::anonymous();
        load(&ctx, &store, "./.test/f".to_string(), 0, vec![])
    };
    assert_eq!(denied.unwrap_err().code, ERROR_PERMISSION_DENIED);
}

#[test]
fn a_failure_is_reported_by_what_failed() {
    let remove_info = Action::RemoveInfo { path: "/a".to_string() };
    assert!(failure(&remove_info, true, "gone".to_string()).is_none());
    assert!(failure(&remove_info, false, "locked".to_string()).is_none());
    let remove_file = Action::RemoveFile { path: "/a".to_string() };
    assert_eq!(failure(&remove_file, true, "gone".to_string()).unwrap().code, ERROR_NOT_FOUND);
    let locked = failure(&remove_file, false, "locked".to_string()).unwrap();
    assert_eq!((locked.code, locked.message.as_str()), (ERROR_UNKNOWN, "locked"));
    let remove_dir = Action::RemoveDir { path: "/a".to_string(), recursively: false };
    assert_eq!(failure(&remove_dir, true, "gone".to_string()).unwrap().code, ERROR_UNKNOWN);
    let write = Action::Write { path: "/``a".to_string(), data: vec![] };
    assert_eq!(failure(&write, false, "full".to_string()).unwrap().code, ERROR_UNKNOWN);
    assert_eq!(read_failure(true, "gone".to_string()).code, ERROR_NOT_FOUND);
    let broken = read_failure(false, "broken".to_string());
    assert_eq!((broken.code, broken.message.as_str()), (ERROR_UNKNOWN, "broken"));
}

#[test]
fn the_dump_puts_directories_first() {
    let mut volume = production();
    volume.init_canistorage().unwrap();
    for name in ["/b", "/a"] {
        volume.save(name.to_string(), "text/plain".to_string(), vec![1, 2], false).unwrap();
    }
    for name in ["/z", "/y"] {
        volume.create_directory(name.to_string()).unwrap();
    }
    volume.save("/z/f".to_string(), "text/plain".to_string(), vec![1], false).unwrap();
    let dump = volume.get_info_for_poc("/".to_string()).unwrap();
    assert_eq!(dump.path, "/");
    assert_eq!(dump.manageable, vec![owner()]);
    let children = dump.children.unwrap();
    let paths: Vec<&str> = children.iter().map(|c| c.path.as_str()).collect();
    assert_eq!(paths, vec!["/y", "/z", "/a", "/b"]);
    assert_eq!(children[1].children.as_ref().unwrap().len(), 1);
    assert_eq!(children[1].children.as_ref().unwrap()[0].path, "/z/f");
    assert!(children[2].children.is_none());
    assert_eq!(children[2].size, 2);
    let none = get_info_for_poc("/none".to_string(), None, Vec::new());
    assert_eq!(none.unwrap_err().code, ERROR_NOT_FOUND);
}

#[test]
fn the_dump_follows_what_is_not_hidden() {
    let entries = vec![
        ("b".to_string(), "/d/b".to_string()),
        ("`b".to_string(), "/d/`b".to_string()),
        ("a".to_string(), "/d/a".to_string()),
        ("``c".to_string(), "/d/``c".to_string()),
        ("c`".to_string(), "/d/c`".to_string()),
    ];
    assert_eq!(paths_to_dump(entries), vec!["/d/b", "/d/a", "/d/c`"]);
    assert_eq!(paths_to_dump(Vec::new()), Vec::<String>::new());
}

#[test]
fn a_reset_removes_every_entry() {
    let actions = force_reset_for_poc(vec![("/d".to_string(), true), ("/f".to_string(), false)]);
    assert_eq!(actions.len(), 2);
    assert!(matches!(&actions[0], Action::RemoveDir { path, recursively: true } if path == "/d"));
    assert!(matches!(&actions[1], Action::RemoveFile { path } if path == "/f"));
}
