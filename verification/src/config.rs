//! The configuration dictionary the store consumes.

use vstd::prelude::*;
use crate::maps::StringMap;

verus! {

/// Client- and gateway-supplied settings, keyed by name.
pub struct IKVStoreConfig {
    pub string_configs: StringMap<String>,
    pub int_configs: StringMap<i64>,
}

impl IKVStoreConfig {
    pub open spec fn wf(self) -> bool {
        &&& self.string_configs.wf()
        &&& self.int_configs.wf()
    }

    pub fn new() -> (r: IKVStoreConfig)
        ensures
            r.wf(),
            r.string_configs@ == Map::<Seq<char>, String>::empty(),
            r.int_configs@ == Map::<Seq<char>, i64>::empty(),
    {
        IKVStoreConfig { string_configs: StringMap::new(), int_configs: StringMap::new() }
    }

    /// Set a string-valued config.
    pub fn set_string(&mut self, key: String, value: String)
        requires
            old(self).wf(),
        ensures
            final(self).wf(),
            final(self).string_configs@ == old(self).string_configs@.insert(key@, value),
            final(self).int_configs == old(self).int_configs,
    {
        self.string_configs.insert(key, value);
    }

    /// Set an integer-valued config.
    pub fn set_int(&mut self, key: String, value: i64)
        requires
            old(self).wf(),
        ensures
            final(self).wf(),
            final(self).int_configs@ == old(self).int_configs@.insert(key@, value),
            final(self).string_configs == old(self).string_configs,
    {
        self.int_configs.insert(key, value);
    }

    /// Look up a string-valued config.
    pub fn get_string(&self, key: &str) -> (r: Option<&String>)
        requires
            self.wf(),
        ensures
            match r {
                Some(v) => self.string_configs@.contains_key(key@) && *v == self.string_configs@[
                    key@],
                None => !self.string_configs@.contains_key(key@),
            },
    {
        self.string_configs.get(key)
    }

    /// Look up an integer-valued config.
    pub fn get_int(&self, key: &str) -> (r: Option<&i64>)
        requires
            self.wf(),
        ensures
            match r {
                Some(v) => self.int_configs@.contains_key(key@) && *v == self.int_configs@[key@],
                None => !self.int_configs@.contains_key(key@),
            },
    {
        self.int_configs.get(key)
    }
}

} // verus!
