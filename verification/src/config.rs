//! The settings of the daemon.

use vstd::prelude::*;

use crate::text::{
    decimal, decimal_text, fields, is_number, join, joined_by, law_joined_fields, parse_usize,
    split_fields, texts, usize_parse_error,
};

verus! {

/// The bit pattern of the default decay rate, one tenth.
pub const DEFAULT_LAMBDA: u64 = 0x3fb9_9999_9999_999a;

/// The settings of the daemon. The decay rate `lambda` is the bit pattern of an
/// IEEE 754 double.
#[derive(Debug)]
pub struct Config {
    pub root_dirs: Vec<String>,
    pub lambda: u64,
    pub retrain_threshold: usize,
    pub max_results: usize,
    pub log_level: String,
}

/// What a [`Config`] says.
#[verifier::ext_equal]
pub struct ConfigModel {
    pub root_dirs: Seq<Seq<char>>,
    pub lambda: u64,
    pub retrain_threshold: usize,
    pub max_results: usize,
    pub log_level: Seq<char>,
}

impl View for Config {
    type V = ConfigModel;

    open spec fn view(&self) -> ConfigModel {
        ConfigModel {
            root_dirs: texts(self.root_dirs@),
            lambda: self.lambda,
            retrain_threshold: self.retrain_threshold,
            max_results: self.max_results,
            log_level: self.log_level@,
        }
    }
}

impl ConfigModel {
    /// The settings of a new installation.
    pub open spec fn initial(home: Option<Seq<char>>) -> ConfigModel {
        ConfigModel {
            root_dirs: seq![
                match home {
                    Some(h) => h,
                    None => "C:/"@,
                },
            ],
            lambda: DEFAULT_LAMBDA,
            retrain_threshold: 500,
            max_results: 10,
            log_level: "info"@,
        }
    }

    /// The value of a setting as text; `lambda_text` is that of the decay rate.
    pub open spec fn value_of(self, key: Seq<char>, lambda_text: Seq<char>) -> Option<Seq<char>> {
        if key == "lambda"@ {
            Some(lambda_text)
        } else if key == "retrain_threshold"@ {
            Some(decimal_text(self.retrain_threshold as nat))
        } else if key == "max_results"@ {
            Some(decimal_text(self.max_results as nat))
        } else if key == "log_level"@ {
            Some(self.log_level)
        } else if key == "root_dirs"@ {
            Some(joined_by(self.root_dirs, ';'))
        } else {
            None
        }
    }
}

/// Whether two texts are equal.
pub fn same_text(a: &str, b: &str) -> (r: bool)
    ensures
        r == (a@ == b@),
{
    a.to_owned() == b.to_owned()
}

/// The outcome of reading a number for a setting that had the value `old`.
pub open spec fn number_set(value: Seq<char>, old_value: usize, new_value: usize, r: Result<(), Seq<char>>) -> bool {
    match r {
        Ok(_) => is_number(value, new_value as int),
        Err(e) => new_value == old_value && e == usize_parse_error(value) && forall|n: int|
            is_number(value, n) ==> n > usize::MAX,
    }
}

/// `after` is `before` with `key` set to `value`, where `lambda` is what the
/// value is as a decay rate; `r` says whether that worked, or why not.
pub open spec fn setting_changed(
    before: ConfigModel,
    after: ConfigModel,
    key: Seq<char>,
    value: Seq<char>,
    lambda: Result<u64, Seq<char>>,
    r: Result<(), Seq<char>>,
) -> bool {
    if key == "lambda"@ {
        match lambda {
            Ok(bits) => r is Ok && after == (ConfigModel { lambda: bits, ..before }),
            Err(e) => r == Err::<(), Seq<char>>(e) && after == before,
        }
    } else if key == "retrain_threshold"@ {
        &&& number_set(value, before.retrain_threshold, after.retrain_threshold, r)
        &&& after == (ConfigModel { retrain_threshold: after.retrain_threshold, ..before })
    } else if key == "max_results"@ {
        &&& number_set(value, before.max_results, after.max_results, r)
        &&& after == (ConfigModel { max_results: after.max_results, ..before })
    } else if key == "log_level"@ {
        r is Ok && after == (ConfigModel { log_level: value, ..before })
    } else if key == "root_dirs"@ {
        r is Ok && after == (ConfigModel { root_dirs: fields(value, ';'), ..before })
    } else {
        r == Err::<(), Seq<char>>("unknown config key: "@ + key) && after == before
    }
}

/// What a result says.
pub open spec fn outcome_text(r: Result<(), String>) -> Result<(), Seq<char>> {
    match r {
        Ok(_) => Ok(()),
        Err(e) => Err(e@),
    }
}

/// What a decay rate that was read says.
pub open spec fn lambda_outcome(r: Result<u64, String>) -> Result<u64, Seq<char>> {
    match r {
        Ok(bits) => Ok(bits),
        Err(e) => Err(e@),
    }
}

impl Config {
    /// The settings of a new installation, with the user's home directory as
    /// the only root.
    pub fn initial(home: Option<String>) -> (c: Config)
        ensures
            c@ == ConfigModel::initial(crate::protocol::optional_text(home)),
    {
        let root = match home {
            Some(h) => h,
            None => "C:/".to_owned(),
        };
        let ghost r = root@;
        let mut root_dirs: Vec<String> = Vec::new();
        root_dirs.push(root);
        assert(texts(root_dirs@) =~= seq![r]);
        Config {
            root_dirs,
            lambda: DEFAULT_LAMBDA,
            retrain_threshold: 500,
            max_results: 10,
            log_level: "info".to_owned(),
        }
    }

    /// The value of a setting as text; `lambda_text` is that of the decay rate.
    pub fn get(&self, key: &str, lambda_text: &str) -> (r: Option<String>)
        ensures
            crate::protocol::optional_text(r) == self@.value_of(key@, lambda_text@),
    {
        if same_text(key, "lambda") {
            Some(lambda_text.to_owned())
        } else if same_text(key, "retrain_threshold") {
            Some(decimal(self.retrain_threshold as u64))
        } else if same_text(key, "max_results") {
            Some(decimal(self.max_results as u64))
        } else if same_text(key, "log_level") {
            Some(self.log_level.clone())
        } else if same_text(key, "root_dirs") {
            Some(join(&self.root_dirs, ';'))
        } else {
            None
        }
    }

    /// Changes a setting; `lambda` is what the value is as a decay rate.
    pub fn set(&mut self, key: &str, value: &str, lambda: Result<u64, String>) -> (r: Result<
        (),
        String,
    >)
        ensures
            setting_changed(
                old(self)@,
                final(self)@,
                key@,
                value@,
                lambda_outcome(lambda),
                outcome_text(r),
            ),
    {
        if same_text(key, "lambda") {
            match lambda {
                Ok(bits) => {
                    self.lambda = bits;
                    Ok(())
                },
                Err(e) => Err(e),
            }
        } else if same_text(key, "retrain_threshold") {
            match parse_usize(value) {
                Ok(n) => {
                    self.retrain_threshold = n;
                    Ok(())
                },
                Err(e) => Err(e),
            }
        } else if same_text(key, "max_results") {
            match parse_usize(value) {
                Ok(n) => {
                    self.max_results = n;
                    Ok(())
                },
                Err(e) => Err(e),
            }
        } else if same_text(key, "log_level") {
            self.log_level = value.to_owned();
            Ok(())
        } else if same_text(key, "root_dirs") {
            self.root_dirs = split_fields(value, ';');
            Ok(())
        } else {
            Err("unknown config key: ".to_owned().concat(key))
        }
    }

    /// Adds a root directory unless it is there already. Whether it was added.
    pub fn add_root(&mut self, dir: &str) -> (added: bool)
        ensures
            added == !old(self)@.root_dirs.contains(dir@),
            final(self)@ == if added {
                ConfigModel { root_dirs: old(self)@.root_dirs.push(dir@), ..old(self)@ }
            } else {
                old(self)@
            },
    {
        let d = dir.to_owned();
        let mut i: usize = 0;
        while i < self.root_dirs.len()
            invariant
                d@ == dir@,
                self@ == old(self)@,
                self.root_dirs@ == old(self).root_dirs@,
                i <= self.root_dirs@.len(),
                forall|j: int| 0 <= j < i ==> (#[trigger] self.root_dirs@[j])@ != dir@,
            decreases self.root_dirs@.len() - i,
        {
            if self.root_dirs[i] == d {
                assert(self@.root_dirs[i as int] == dir@);
                return false;
            }
            i = i + 1;
        }
        proof {
            if self@.root_dirs.contains(dir@) {
                let j = choose|j: int|
                    0 <= j < self@.root_dirs.len() && self@.root_dirs[j] == dir@;
                assert(self.root_dirs@[j]@ == dir@);
            }
        }
        self.root_dirs.push(d);
        assert(self@.root_dirs =~= old(self)@.root_dirs.push(dir@));
        true
    }
}

/// A list of root directories that was set reads back as it was written.
pub proof fn law_root_dirs_read_back(
    before: ConfigModel,
    after: ConfigModel,
    value: Seq<char>,
    lambda: Result<u64, Seq<char>>,
    r: Result<(), Seq<char>>,
    lambda_text: Seq<char>,
)
    requires
        setting_changed(before, after, "root_dirs"@, value, lambda, r),
    ensures
        after.value_of("root_dirs"@, lambda_text) == Some(value),
{
    reveal_strlit("lambda");
    reveal_strlit("retrain_threshold");
    reveal_strlit("max_results");
    reveal_strlit("log_level");
    reveal_strlit("root_dirs");
    assert("root_dirs"@.len() == 9);
    assert("lambda"@.len() == 6);
    assert("retrain_threshold"@.len() == 17);
    assert("max_results"@.len() == 11);
    assert("log_level"@[0] == 'l');
    assert("root_dirs"@[0] == 'r');
    law_joined_fields(value, ';');
}

} // verus!
