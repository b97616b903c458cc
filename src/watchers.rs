//! Watchers: small components that know which node they stand for and the
//! change queue they report to.
use vstd::prelude::*;
use crate::change_queue::QueuedSet;

verus! {

#[verifier::external_type_specification]
#[verifier::external_body]
#[verifier::reject_recursive_types(T)]
pub struct ExMutex<T: ?Sized>(std::sync::Mutex<T>);

/// The change queue shared between the watchers and the round thread.
pub type ChangeQueue = std::sync::Arc<std::sync::Mutex<QueuedSet<String>>>;

/// A component that reports changes of one node to a change queue.
pub trait Watcher {
    fn identifier(&self) -> String;

    fn change_queue(&self) -> Option<ChangeQueue>;

    fn bind(&mut self, change_queue: ChangeQueue);
}

/// Watches a model file.
pub struct FileWatcher {
    pub identifier: String,
    pub filename: String,
    pub change_queue_binding: Option<ChangeQueue>,
}

impl FileWatcher {
    pub fn new(identifier: String, filename: String) -> (r: FileWatcher)
        ensures
            r.identifier == identifier,
            r.filename == filename,
            r.change_queue_binding is None,
    {
        FileWatcher { identifier, filename, change_queue_binding: None }
    }
}

impl Watcher for FileWatcher {
    fn identifier(&self) -> (r: String)
        ensures
            r == self.identifier,
    {
        self.identifier.clone()
    }

    fn change_queue(&self) -> (r: Option<ChangeQueue>)
        ensures
            r is Some == self.change_queue_binding is Some,
    {
        match &self.change_queue_binding {
            Some(q) => Some(std::sync::Arc::clone(q)),
            None => None,
        }
    }

    fn bind(&mut self, change_queue: ChangeQueue)
        ensures
            final(self).change_queue_binding == Some(change_queue),
            final(self).identifier == old(self).identifier,
    {
        self.change_queue_binding = Some(change_queue);
    }
}

/// Watches a spreadsheet and the model file generated from it.
pub struct ExcelWatcher {
    pub identifier: String,
    pub excel_filename: String,
    pub sedaroml_filename: String,
    pub change_queue_binding: Option<ChangeQueue>,
}

impl ExcelWatcher {
    pub fn new(identifier: String, excel_filename: String, sedaroml_filename: String) -> (r: ExcelWatcher)
        ensures
            r.identifier == identifier,
            r.excel_filename == excel_filename,
            r.sedaroml_filename == sedaroml_filename,
            r.change_queue_binding is None,
    {
        ExcelWatcher { identifier, excel_filename, sedaroml_filename, change_queue_binding: None }
    }
}

impl Watcher for ExcelWatcher {
    fn identifier(&self) -> (r: String)
        ensures
            r == self.identifier,
    {
        self.identifier.clone()
    }

    fn change_queue(&self) -> (r: Option<ChangeQueue>)
        ensures
            r is Some == self.change_queue_binding is Some,
    {
        match &self.change_queue_binding {
            Some(q) => Some(std::sync::Arc::clone(q)),
            None => None,
        }
    }

    fn bind(&mut self, change_queue: ChangeQueue)
        ensures
            final(self).change_queue_binding == Some(change_queue),
            final(self).identifier == old(self).identifier,
    {
        self.change_queue_binding = Some(change_queue);
    }
}

} // verus!
