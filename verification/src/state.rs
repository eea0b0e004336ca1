//! What the daemon knows.

use vstd::prelude::*;

use crate::cache::counted;
use crate::classifier::{Classifier, ClassifierModel};
use crate::config::Config;
use crate::fs::Filesystem;
use crate::pathcache::{PathCacheModel, PathTtlCache, DEFAULT_CAP_BYTES, DEFAULT_TTL};
use crate::store::Store;

verus! {

/// What the daemon knows.
pub struct DaemonState {
    pub store: Store,
    /// The copy-on-write virtual filesystem volume.
    pub vfs: Filesystem,
    pub classifier: Classifier,
    pub config: Config,
    pub last_retrain: Option<String>,
    /// Model version most recently persisted.
    pub saved_version: u64,
    /// Sliding-TTL cache of found query results.
    pub path_cache: PathTtlCache,
}

impl DaemonState {
    pub open spec fn wf(&self) -> bool {
        &&& self.store.wf()
        &&& self.vfs.wf()
        &&& self.classifier.wf()
        &&& self.path_cache.wf()
    }

    /// Everything but the volume is as it was.
    pub open spec fn same_but_vfs(&self, before: &DaemonState) -> bool {
        &&& self.store == before.store
        &&& self.classifier == before.classifier
        &&& self.config == before.config
        &&& self.last_retrain == before.last_retrain
        &&& self.saved_version == before.saved_version
        &&& self.path_cache == before.path_cache
    }

    /// Everything says what it said.
    pub open spec fn same(&self, before: &DaemonState) -> bool {
        self.same_but_vfs(before) && self.vfs@ == before.vfs@
    }

    pub fn new(store: Store, vfs: Filesystem, config: Config) -> (s: DaemonState)
        requires
            store.wf(),
            vfs.wf(),
        ensures
            s.wf(),
            s.store == store,
            s.vfs == vfs,
            s.config == config,
            s.classifier@ == (ClassifierModel {
                terms: Seq::empty(),
                classes: Seq::empty(),
                updates: 0,
                version: 0,
            }),
            s.last_retrain is None,
            s.saved_version == 0,
            s.path_cache@ == (PathCacheModel {
                map: Map::empty(),
                ttl: DEFAULT_TTL,
                cap: DEFAULT_CAP_BYTES as nat,
                hits: 0,
                misses: 0,
                expired: 0,
                evictions: 0,
            }),
    {
        DaemonState {
            store,
            vfs,
            classifier: Classifier::untrained(),
            config,
            last_retrain: None,
            saved_version: 0,
            path_cache: PathTtlCache::new(DEFAULT_TTL, DEFAULT_CAP_BYTES),
        }
    }

    /// Puts a newly trained classifier in place of the live one. The version
    /// goes on from that of the live one, whatever was learned while the new one
    /// was being trained.
    pub fn adopt(&mut self, c: Classifier)
        requires
            old(self).wf(),
            c.wf(),
        ensures
            final(self).wf(),
            final(self).classifier@ == (ClassifierModel {
                version: counted(old(self).classifier@.version, 1),
                ..c@
            }),
            old(self).classifier@.version < u64::MAX ==> final(self).classifier@.version
                > old(self).classifier@.version,
            final(self).store == old(self).store,
            final(self).vfs == old(self).vfs,
            final(self).config == old(self).config,
            final(self).last_retrain == old(self).last_retrain,
            final(self).saved_version == old(self).saved_version,
            final(self).path_cache == old(self).path_cache,
    {
        let last = self.classifier.version();
        self.classifier = c.following(last);
    }

    /// Whether the model has changed since it was saved.
    pub fn needs_checkpoint(&self) -> (r: bool)
        ensures
            r == (self.classifier@.version != self.saved_version),
    {
        self.classifier.version() != self.saved_version
    }
}

} // verus!
