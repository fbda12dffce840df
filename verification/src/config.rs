//! Engine settings and their defaults. Numeric settings are held in the
//! engine's exact units: the default ease in hundredths, the link weight
//! in millionths.

use crate::text::sub_bytes;
use vstd::prelude::*;

verus! {

/// Settings, each optional; a getter resolves its default.
pub struct Config {
    pub vault_path: Option<Vec<u8>>,
    pub max_interval: Option<u32>,
    pub default_ease: Option<u32>,
    pub link_weight: Option<u32>,
    pub load_balance: Option<bool>,
    pub exclude_dirs: Option<Vec<Vec<u8>>>,
    pub auto_init: Option<bool>,
    pub template_dir: Option<Vec<u8>>,
    pub default_template: Option<Vec<u8>>,
    pub allow_template_exec: Option<bool>,
}

/// The default directory names excluded from a scan.
pub open spec fn spec_default_excludes() -> Seq<Seq<u8>> {
    seq![
        seq![46u8, 103u8, 105u8, 116u8],
        seq![46u8, 111u8, 98u8, 115u8, 105u8, 100u8, 105u8, 97u8, 110u8],
        seq![46u8, 116u8, 114u8, 97u8, 115u8, 104u8],
    ]
}

impl Default for Config {
    /// A configuration with everything unset: every getter answers its
    /// default.
    fn default() -> (r: Config)
        ensures
            r.vault_path is None,
            r.max_interval is None,
            r.default_ease is None,
            r.link_weight is None,
            r.load_balance is None,
            r.exclude_dirs is None,
            r.auto_init is None,
            r.template_dir is None,
            r.default_template is None,
            r.allow_template_exec is None,
    {
        Config::unset()
    }
}

impl Config {
    /// A configuration with everything unset.
    pub fn unset() -> (r: Config)
        ensures
            r.vault_path is None,
            r.max_interval is None,
            r.default_ease is None,
            r.link_weight is None,
            r.load_balance is None,
            r.exclude_dirs is None,
            r.auto_init is None,
            r.template_dir is None,
            r.default_template is None,
            r.allow_template_exec is None,
    {
        Config {
            vault_path: None,
            max_interval: None,
            default_ease: None,
            link_weight: None,
            load_balance: None,
            exclude_dirs: None,
            auto_init: None,
            template_dir: None,
            default_template: None,
            allow_template_exec: None,
        }
    }

    /// Interval ceiling in days (90 unless set).
    pub fn max_interval(&self) -> (r: u32)
        ensures
            r == self.max_interval.unwrap_or(90),
    {
        match self.max_interval {
            Some(v) => v,
            None => 90,
        }
    }

    /// Starting ease in hundredths (2.50 unless set).
    pub fn default_ease(&self) -> (r: u32)
        ensures
            r == self.default_ease.unwrap_or(250),
    {
        match self.default_ease {
            Some(v) => v,
            None => 250,
        }
    }

    /// Connectivity weight in millionths (0.1 unless set).
    pub fn link_weight(&self) -> (r: u32)
        ensures
            r == self.link_weight.unwrap_or(100000),
    {
        match self.link_weight {
            Some(v) => v,
            None => 100000,
        }
    }

    /// Whether reviews are spread over the fuzz window (on unless set).
    pub fn load_balance(&self) -> (r: bool)
        ensures
            r == self.load_balance.unwrap_or(true),
    {
        match self.load_balance {
            Some(v) => v,
            None => true,
        }
    }

    /// Directory names pruned from a scan.
    pub fn exclude_dirs(&self) -> (r: Vec<Vec<u8>>)
        ensures
            match self.exclude_dirs {
                Some(ref v) => r.deep_view() == v.deep_view(),
                None => r.deep_view() == spec_default_excludes(),
            },
    {
        match &self.exclude_dirs {
            Some(v) => {
                let n = v.len();
                let mut out: Vec<Vec<u8>> = Vec::new();
                let mut k: usize = 0;
                while k < n
                    invariant
                        0 <= k <= n,
                        n == v@.len(),
                        out.deep_view() =~~= v.deep_view().take(k as int),
                    decreases n - k,
                {
                    let ghost prev = out.deep_view();
                    let item = sub_bytes(v[k].as_slice(), 0, v[k].len());
                    proof {
                        crate::text::lemma_deep_view_bytes(v@[k as int]);
                        assert(item@ == v.deep_view()[k as int]);
                    }
                    out.push(item);
                    proof {
                        crate::text::lemma_deep_view_bytes(out@[k as int]);
                        assert(out.deep_view() =~~= prev.push(item@));
                        assert(prev.push(item@) =~~= v.deep_view().take(k + 1));
                    }
                    k = k + 1;
                }
                proof {
                    assert(v.deep_view().take(n as int) =~~= v.deep_view());
                }
                out
            },
            None => {
                let mut out: Vec<Vec<u8>> = Vec::new();
                let mut a: Vec<u8> = Vec::new();
                a.push(46);
                a.push(103);
                a.push(105);
                a.push(116);
                out.push(a);
                let mut b: Vec<u8> = Vec::new();
                b.push(46);
                b.push(111);
                b.push(98);
                b.push(115);
                b.push(105);
                b.push(100);
                b.push(105);
                b.push(97);
                b.push(110);
                out.push(b);
                let mut c: Vec<u8> = Vec::new();
                c.push(46);
                c.push(116);
                c.push(114);
                c.push(97);
                c.push(115);
                c.push(104);
                out.push(c);
                proof {
                    assert(out.deep_view() =~~= spec_default_excludes());
                }
                out
            },
        }
    }

    /// Whether a created note is given metadata at once (on unless set).
    pub fn auto_init(&self) -> (r: bool)
        ensures
            r == self.auto_init.unwrap_or(true),
    {
        match self.auto_init {
            Some(v) => v,
            None => true,
        }
    }

    /// The template name used when none is asked for (`default` unless
    /// set).
    pub fn default_template(&self) -> (r: Vec<u8>)
        ensures
            match self.default_template {
                Some(ref v) => r@ == v@,
                None => r@ == seq![100u8, 101u8, 102u8, 97u8, 117u8, 108u8, 116u8],
            },
    {
        match &self.default_template {
            Some(v) => sub_bytes(v.as_slice(), 0, v.len()),
            None => {
                let mut d: Vec<u8> = Vec::new();
                d.push(100);
                d.push(101);
                d.push(102);
                d.push(97);
                d.push(117);
                d.push(108);
                d.push(116);
                proof {
                    assert(d@ =~= seq![100u8, 101u8, 102u8, 97u8, 117u8, 108u8, 116u8]);
                }
                d
            },
        }
    }

    /// Whether templates may run shell commands (off unless set).
    pub fn allow_template_exec(&self) -> (r: bool)
        ensures
            r == self.allow_template_exec.unwrap_or(false),
    {
        match self.allow_template_exec {
            Some(v) => v,
            None => false,
        }
    }
}

} // verus!
