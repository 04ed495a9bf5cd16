//! What the daemon takes from its configuration, and what it takes without one.
use crate::store::S3Config;
use crate::text;
use vstd::prelude::*;

verus! {

/// The section `cache`.
#[derive(Debug, Clone)]
pub struct CacheCfg {
    pub slab_size_mib: u32,
    pub l2: Option<L2Cfg>,
}

/// The section `api`.
#[derive(Debug, Clone)]
pub struct ApiCfg {
    pub listen: String,
}

/// The section `cache.l2`.
#[derive(Debug, Clone)]
pub struct L2Cfg {
    /// `mem`, `segmentstore` (or, as it was called, `slabfile`) or `blobdb`.
    pub backend: String,
    /// The older name of `segment_path`.
    pub slabfile_path: Option<String>,
    pub segment_path: Option<String>,
}

/// The configuration of the daemon.
#[derive(Debug, Clone)]
pub struct Config {
    pub cache: Option<CacheCfg>,
    pub api: Option<ApiCfg>,
    pub s3: Option<S3Config>,
}

impl Default for Config {
    fn default() -> (r: Config)
        ensures
            r.cache is None,
            r.api is None,
            r.s3 is None,
    {
        Config { cache: None, api: None, s3: None }
    }
}

pub fn default_slab_size_mib() -> (r: u32)
    ensures
        r == 8,
{
    8
}

pub fn default_listen() -> (r: String)
    ensures
        r@ == "0.0.0.0:7070"@,
{
    "0.0.0.0:7070".to_string()
}

pub fn default_l2_backend() -> (r: String)
    ensures
        r@ == "segmentstore"@,
{
    "segmentstore".to_string()
}

/// Where the segments are if the configuration does not say.
pub fn default_segment_path() -> (r: String)
    ensures
        r@ == "/var/lib/seekfs/l2"@,
{
    "/var/lib/seekfs/l2".to_string()
}

/// So many MiB, in bytes.
pub open spec fn mib(n: u32) -> u64 {
    (n * 1048576) as u64
}

/// The size of a page, in bytes.
pub fn slab_bytes(slab_size_mib: u32) -> (r: u64)
    ensures
        r == mib(slab_size_mib),
        r == slab_size_mib * 1048576,
{
    slab_size_mib as u64 * 1024 * 1024
}

/// Which cache backend to use.
#[derive(Debug)]
pub enum L2Choice {
    Mem,
    /// The segments below this folder.
    Segments(String),
    /// Memory, since `blobdb` is not there yet.
    NoBlobDb,
    /// Memory, since there is no backend of this name.
    Unknown(String),
}

/// What an [`L2Choice`] says.
pub enum L2ChoiceView {
    Mem,
    Segments(Seq<char>),
    NoBlobDb,
    Unknown(Seq<char>),
}

impl View for L2Choice {
    type V = L2ChoiceView;

    open spec fn view(&self) -> L2ChoiceView {
        match self {
            L2Choice::Mem => L2ChoiceView::Mem,
            L2Choice::Segments(p) => L2ChoiceView::Segments(p@),
            L2Choice::NoBlobDb => L2ChoiceView::NoBlobDb,
            L2Choice::Unknown(n) => L2ChoiceView::Unknown(n@),
        }
    }
}

/// The folder of the segments: the configured one, under its name or its older name, or
/// the default.
pub open spec fn segments_at(l2: L2Cfg) -> Seq<char> {
    match (l2.segment_path, l2.slabfile_path) {
        (Some(p), _) => p@,
        (None, Some(p)) => p@,
        (None, None) => "/var/lib/seekfs/l2"@,
    }
}

/// The backend that the section `cache.l2` asks for; without the section, the segments at
/// their default place.
pub open spec fn l2_named(l2: Option<L2Cfg>) -> L2ChoiceView {
    match l2 {
        None => L2ChoiceView::Segments("/var/lib/seekfs/l2"@),
        Some(l2) => {
            let name = l2.backend@;
            if name == "mem"@ {
                L2ChoiceView::Mem
            } else if name == "slabfile"@ || name == "segmentstore"@ {
                L2ChoiceView::Segments(segments_at(l2))
            } else if name == "blobdb"@ {
                L2ChoiceView::NoBlobDb
            } else {
                L2ChoiceView::Unknown(name)
            }
        },
    }
}

impl L2Cfg {
    fn choice(&self) -> (r: L2Choice)
        ensures
            r@ == l2_named(Some(*self)),
    {
        let name = self.backend.as_str();
        if text::same(name, "mem") {
            L2Choice::Mem
        } else if text::same(name, "slabfile") || text::same(name, "segmentstore") {
            let path = match &self.segment_path {
                Some(p) => p.clone(),
                None => match &self.slabfile_path {
                    Some(p) => p.clone(),
                    None => default_segment_path(),
                },
            };
            L2Choice::Segments(path)
        } else if text::same(name, "blobdb") {
            L2Choice::NoBlobDb
        } else {
            L2Choice::Unknown(self.backend.clone())
        }
    }
}

impl Config {
    /// The address to listen at.
    pub fn listen(&self) -> (r: String)
        ensures
            r@ == match self.api {
                Some(api) => api.listen@,
                None => "0.0.0.0:7070"@,
            },
    {
        match &self.api {
            Some(api) => api.listen.clone(),
            None => default_listen(),
        }
    }

    /// The size of a page, in bytes.
    pub fn slab_size(&self) -> (r: u64)
        ensures
            r == match self.cache {
                Some(cache) => mib(cache.slab_size_mib),
                None => mib(8),
            },
    {
        match &self.cache {
            Some(cache) => slab_bytes(cache.slab_size_mib),
            None => slab_bytes(default_slab_size_mib()),
        }
    }

    /// Which cache backend to use.
    pub fn l2(&self) -> (r: L2Choice)
        ensures
            r@ == l2_named(
                match self.cache {
                    Some(cache) => cache.l2,
                    None => None,
                },
            ),
    {
        match &self.cache {
            Some(cache) => match &cache.l2 {
                Some(l2) => l2.choice(),
                None => L2Choice::Segments(default_segment_path()),
            },
            None => L2Choice::Segments(default_segment_path()),
        }
    }
}

/// A MiB is 1024 times 1024 bytes, and more MiB are more bytes, each as many.
pub proof fn law_mib(n: u32, m: u32)
    ensures
        mib(0) == 0,
        mib(1) == 1024 * 1024,
        n < m ==> mib(m) - mib(n) == (m - n) * mib(1),
        mib(n) as int == n * (1024 * 1024),
{
}

/// The two names of the segment store mean the same. Its folder is the one that was
/// configured, under the newer name or else under the older, or else the default one; without
/// a section it is the segment store, there. Every other name but `mem` and `blobdb` is told
/// back as unknown.
pub proof fn law_l2(l2: L2Cfg)
    ensures
        l2_named(None) == L2ChoiceView::Segments("/var/lib/seekfs/l2"@),
        l2.backend@ == "segmentstore"@ || l2.backend@ == "slabfile"@ ==> {
            &&& l2_named(Some(l2)) matches L2ChoiceView::Segments(folder)
            &&& l2.segment_path is Some ==> folder == l2.segment_path->0@
            &&& l2.segment_path is None && l2.slabfile_path is Some ==> folder
                == l2.slabfile_path->0@
            &&& l2.segment_path is None && l2.slabfile_path is None ==> folder
                == "/var/lib/seekfs/l2"@
        },
        l2_named(Some(l2)) is Segments ==> l2.backend@ == "segmentstore"@ || l2.backend@
            == "slabfile"@,
        l2_named(Some(l2)) is Mem <==> l2.backend@ == "mem"@,
        l2_named(Some(l2)) is NoBlobDb <==> l2.backend@ == "blobdb"@,
        l2_named(Some(l2)) matches L2ChoiceView::Unknown(name) ==> name == l2.backend@,
{
    reveal_strlit("mem");
    reveal_strlit("blobdb");
    reveal_strlit("slabfile");
    reveal_strlit("segmentstore");
    assert("mem"@.len() == 3 && "blobdb"@.len() == 6 && "slabfile"@.len() == 8
        && "segmentstore"@.len() == 12);
}

} // verus!
