//! File metadata.

use vstd::prelude::*;

use crate::format::acl;
use crate::format::mode::{self, permission_bits, replace_type, type_bits};
use crate::format::time::{signed_nanos, NANOS_PER_SEC};
use crate::format::xattr::XAttrView;
use crate::format::{
    Duration, Entry as Stat, FCaps, QuotaProjectId, SignedDuration, StatxTimestamp, XAttr,
};
use crate::util::copy_vec;

verus! {

/// File metadata found in pxar archives.
///
/// This includes the usual data you'd get from `stat()` as well as ACLs, extended attributes, file
/// capabilities and more.
#[derive(Debug, PartialEq, Eq)]
pub struct Metadata {
    /// Data typically found in a `stat()` call.
    pub stat: Stat,

    /// Extended attributes.
    pub xattrs: Vec<XAttr>,

    /// ACLs.
    pub acl: Acl,

    /// File capabilities.
    pub fcaps: Option<FCaps>,

    /// Quota project id.
    pub quota_project_id: Option<QuotaProjectId>,
}

/// The contents of [`Metadata`].
#[verifier::ext_equal]
pub struct MetadataView {
    pub stat: Stat,
    pub xattrs: Seq<XAttrView>,
    pub acl: AclView,
    pub fcaps: Option<Seq<u8>>,
    pub quota_project_id: Option<QuotaProjectId>,
}

impl MetadataView {
    /// Metadata with nothing but stat data.
    pub open spec fn from_stat(stat: Stat) -> Self {
        MetadataView {
            stat,
            xattrs: Seq::empty(),
            acl: AclView::empty(),
            fcaps: None,
            quota_project_id: None,
        }
    }

    /// The metadata of nothing.
    pub open spec fn empty() -> Self {
        Self::from_stat(Stat::spec_default())
    }

    /// The file type portion of the mode.
    pub open spec fn file_type(self) -> u64 {
        type_bits(self.stat.mode)
    }
}

/// The contents of a list of extended attributes.
pub open spec fn xattr_views(xattrs: Seq<XAttr>) -> Seq<XAttrView> {
    xattrs.map_values(|x: XAttr| x@)
}

/// The contents of optional file capabilities.
pub open spec fn fcaps_view(fcaps: Option<FCaps>) -> Option<Seq<u8>> {
    match fcaps {
        Some(f) => Some(f.data@),
        None => None,
    }
}

impl View for Metadata {
    type V = MetadataView;

    open spec fn view(&self) -> MetadataView {
        MetadataView {
            stat: self.stat,
            xattrs: xattr_views(self.xattrs@),
            acl: self.acl@,
            fcaps: fcaps_view(self.fcaps),
            quota_project_id: self.quota_project_id,
        }
    }
}

/// Copy a list of extended attributes.
fn copy_xattrs(xattrs: &Vec<XAttr>) -> (out: Vec<XAttr>)
    ensures
        xattr_views(out@) == xattr_views(xattrs@),
{
    let mut out: Vec<XAttr> = Vec::new();
    let mut i: usize = 0;
    while i < xattrs.len()
        invariant
            i <= xattrs@.len(),
            out@.len() == i,
            forall|j: int| 0 <= j < i ==> (#[trigger] out@[j])@ == xattrs@[j]@,
        decreases xattrs@.len() - i,
    {
        out.push(xattrs[i].clone());
        i = i + 1;
    }
    proof {
        assert(xattr_views(out@) =~= xattr_views(xattrs@));
    }
    out
}

impl Clone for Metadata {
    fn clone(&self) -> (r: Self)
        ensures
            r@ == self@,
    {
        Metadata {
            stat: self.stat,
            xattrs: copy_xattrs(&self.xattrs),
            acl: self.acl.clone(),
            fcaps: match &self.fcaps {
                Some(fcaps) => Some(fcaps.clone()),
                None => None,
            },
            quota_project_id: self.quota_project_id,
        }
    }
}

impl std::default::Default for Metadata {
    fn default() -> (r: Self)
        ensures
            r@ == MetadataView::empty(),
    {
        Metadata::from_stat(Stat::default())
    }
}

impl vstd::std_specs::convert::FromSpecImpl<Stat> for Metadata {
    open spec fn obeys_from_spec() -> bool {
        false
    }

    open spec fn from_spec(stat: Stat) -> Self {
        arbitrary()
    }
}

impl From<Stat> for Metadata {
    fn from(stat: Stat) -> (r: Self)
        ensures
            r@ == MetadataView::from_stat(stat),
    {
        Metadata::from_stat(stat)
    }
}

/// Convenience helpers.
impl Metadata {
    /// Metadata with nothing but stat data.
    pub fn from_stat(stat: Stat) -> (r: Self)
        ensures
            r@ == MetadataView::from_stat(stat),
    {
        let r = Metadata {
            stat,
            xattrs: Vec::new(),
            acl: Acl::default(),
            fcaps: None,
            quota_project_id: None,
        };
        proof {
            assert(r@.xattrs =~= Seq::<XAttrView>::empty());
        }
        r
    }

    /// Get the file type (`mode & mode::IFMT`).
    pub fn file_type(&self) -> (r: u64)
        ensures
            r == type_bits(self@.stat.mode),
    {
        self.stat.file_type()
    }

    /// Get the file mode bits (`mode & !mode::IFMT`).
    pub fn file_mode(&self) -> (r: u64)
        ensures
            r == permission_bits(self@.stat.mode),
    {
        self.stat.file_mode()
    }

    /// Check whether this is a directory.
    pub fn is_dir(&self) -> (r: bool)
        ensures
            r == (self@.file_type() == mode::IFDIR),
    {
        self.stat.is_dir()
    }

    /// Check whether this is a symbolic link.
    pub fn is_symlink(&self) -> (r: bool)
        ensures
            r == (self@.file_type() == mode::IFLNK),
    {
        self.stat.is_symlink()
    }

    /// Check whether this is a device node.
    pub fn is_device(&self) -> (r: bool)
        ensures
            r == (self@.file_type() == mode::IFCHR || self@.file_type() == mode::IFBLK),
    {
        self.stat.is_device()
    }

    /// Check whether this is a regular file.
    pub fn is_regular_file(&self) -> (r: bool)
        ensures
            r == (self@.file_type() == mode::IFREG),
    {
        self.stat.is_regular_file()
    }

    /// Check whether this is a named pipe (FIFO).
    pub fn is_fifo(&self) -> (r: bool)
        ensures
            r == (self@.file_type() == mode::IFIFO),
    {
        self.stat.is_fifo()
    }

    /// Check whether this is a named socket.
    pub fn is_socket(&self) -> (r: bool)
        ensures
            r == (self@.file_type() == mode::IFSOCK),
    {
        self.stat.is_socket()
    }

    /// Get the mtime as duration since the epoch. an `Ok` value is a positive duration, an `Err`
    /// value is a negative duration.
    pub fn mtime_as_duration(&self) -> (r: SignedDuration)
        ensures
            signed_nanos(r) == self@.stat.mtime.total_nanos(),
            r is Ok <==> self@.stat.mtime.total_nanos() >= 0,
            match r {
                Ok(d) => d.well_formed(),
                Err(d) => d.well_formed(),
            },
    {
        self.stat.mtime_as_duration()
    }

    /// A more convenient way to create metadata for a regular file.
    pub fn file_builder(mode: u64) -> (r: MetadataBuilder)
        ensures
            r.inner@ == MetadataView::from_stat(
                (Stat { mode: mode::IFREG | permission_bits(mode), ..Stat::spec_default() }),
            ),
    {
        Self::builder(mode::IFREG | (mode & !mode::IFMT))
    }

    /// A more convenient way to create metadata for a directory file.
    pub fn dir_builder(mode: u64) -> (r: MetadataBuilder)
        ensures
            r.inner@ == MetadataView::from_stat(
                (Stat { mode: mode::IFDIR | permission_bits(mode), ..Stat::spec_default() }),
            ),
    {
        Self::builder(mode::IFDIR | (mode & !mode::IFMT))
    }

    /// A more convenient way to create generic metadata.
    pub fn builder(mode: u64) -> (r: MetadataBuilder)
        ensures
            r.inner@ == MetadataView::from_stat((Stat { mode, ..Stat::spec_default() })),
    {
        MetadataBuilder::new(mode)
    }
}

/// Builds [`Metadata`] field by field.
pub struct MetadataBuilder {
    pub inner: Metadata,
}

impl MetadataBuilder {
    pub fn new(type_and_mode: u64) -> (r: Self)
        ensures
            r.inner@ == MetadataView::from_stat(
                (Stat { mode: type_and_mode, ..Stat::spec_default() }),
            ),
    {
        let stat = Stat {
            mode: type_and_mode,
            flags: 0,
            uid: 0,
            gid: 0,
            mtime: StatxTimestamp::zero(),
        };
        MetadataBuilder { inner: Metadata::from_stat(stat) }
    }

    pub fn build(self) -> (r: Metadata)
        ensures
            r == self.inner,
    {
        self.inner
    }

    /// Set the file type (`mode & mode::IFMT`).
    pub fn file_type(self, mode: u64) -> (r: Self)
        ensures
            r.inner@ == (MetadataView {
                stat: Stat { mode: replace_type(self.inner.stat.mode, mode), ..self.inner.stat },
                ..self.inner@
            }),
    {
        let mut this = self;
        this.inner.stat.mode = (this.inner.stat.mode & !mode::IFMT) | (mode & mode::IFMT);
        this
    }

    /// Set the file mode bits (`mode & !mode::IFMT`).
    pub fn file_mode(self, mode: u64) -> (r: Self)
        ensures
            r.inner@ == (MetadataView {
                stat: Stat {
                    mode: type_bits(self.inner.stat.mode) | permission_bits(mode),
                    ..self.inner.stat
                },
                ..self.inner@
            }),
    {
        let mut this = self;
        this.inner.stat.mode = (this.inner.stat.mode & mode::IFMT) | (mode & !mode::IFMT);
        this
    }

    /// Set the modification time from a statx timespec value.
    pub fn mtime_full(self, mtime: StatxTimestamp) -> (r: Self)
        ensures
            r.inner@ == (MetadataView {
                stat: Stat { mtime, ..self.inner.stat },
                ..self.inner@
            }),
    {
        let mut this = self;
        this.inner.stat.mtime = mtime;
        this
    }

    /// Set the modification time from a duration since the epoch.
    pub fn mtime_unix(self, mtime: Duration) -> (r: Self)
        requires
            mtime.well_formed(),
            mtime.secs <= i64::MAX,
        ensures
            r.inner.stat.mtime.nanos < NANOS_PER_SEC,
            r.inner.stat.mtime.total_nanos() == mtime.total_nanos(),
            r.inner@ == (MetadataView {
                stat: Stat { mtime: r.inner.stat.mtime, ..self.inner.stat },
                ..self.inner@
            }),
    {
        self.mtime_full(StatxTimestamp::from_duration_since_epoch(mtime))
    }

    /// Set the modification time from a signed duration since the epoch.
    pub fn mtime(self, mtime: SignedDuration) -> (r: Self)
        requires
            match mtime {
                Ok(d) => d.well_formed() && d.secs <= i64::MAX,
                Err(d) => d.well_formed() && d.secs <= i64::MAX,
            },
        ensures
            r.inner.stat.mtime.nanos < NANOS_PER_SEC,
            r.inner.stat.mtime.total_nanos() == signed_nanos(mtime),
            r.inner@ == (MetadataView {
                stat: Stat { mtime: r.inner.stat.mtime, ..self.inner.stat },
                ..self.inner@
            }),
    {
        self.mtime_full(StatxTimestamp::from_signed_duration(mtime))
    }

    /// Set the ownership information.
    pub fn owner(self, uid: u32, gid: u32) -> (r: Self)
        ensures
            r.inner@ == (MetadataView {
                stat: Stat { uid, gid, ..self.inner.stat },
                ..self.inner@
            }),
    {
        self.uid(uid).gid(gid)
    }

    /// Set the owning user id.
    pub fn uid(self, uid: u32) -> (r: Self)
        ensures
            r.inner@ == (MetadataView { stat: Stat { uid, ..self.inner.stat }, ..self.inner@ }),
    {
        let mut this = self;
        this.inner.stat.uid = uid;
        this
    }

    /// Set the owning group id.
    pub fn gid(self, gid: u32) -> (r: Self)
        ensures
            r.inner@ == (MetadataView { stat: Stat { gid, ..self.inner.stat }, ..self.inner@ }),
    {
        let mut this = self;
        this.inner.stat.gid = gid;
        this
    }

    /// Add an extended attribute.
    pub fn xattr(self, name: &[u8], value: &[u8]) -> (r: Self)
        ensures
            r.inner@ == (MetadataView {
                xattrs: self.inner@.xattrs.push(XAttrView { name: name@, value: value@ }),
                ..self.inner@
            }),
    {
        let mut this = self;
        this.inner.xattrs.push(XAttr::new(name, value));
        proof {
            assert(this.inner@.xattrs =~= self.inner@.xattrs.push(
                XAttrView { name: name@, value: value@ },
            ));
        }
        this
    }

    /// Add a user ACL entry.
    pub fn acl_user(self, entry: acl::User) -> (r: Self)
        ensures
            r.inner@ == (MetadataView {
                acl: AclView { users: self.inner@.acl.users.push(entry), ..self.inner@.acl },
                ..self.inner@
            }),
    {
        let mut this = self;
        this.inner.acl.users.push(entry);
        this
    }

    /// Add a group ACL entry.
    pub fn acl_group(self, entry: acl::Group) -> (r: Self)
        ensures
            r.inner@ == (MetadataView {
                acl: AclView { groups: self.inner@.acl.groups.push(entry), ..self.inner@.acl },
                ..self.inner@
            }),
    {
        let mut this = self;
        this.inner.acl.groups.push(entry);
        this
    }

    /// Add a user default-ACL entry.
    pub fn default_acl_user(self, entry: acl::User) -> (r: Self)
        ensures
            r.inner@ == (MetadataView {
                acl: AclView {
                    default_users: self.inner@.acl.default_users.push(entry),
                    ..self.inner@.acl
                },
                ..self.inner@
            }),
    {
        let mut this = self;
        this.inner.acl.default_users.push(entry);
        this
    }

    /// Add a group default-ACL entry.
    pub fn default_acl_group(self, entry: acl::Group) -> (r: Self)
        ensures
            r.inner@ == (MetadataView {
                acl: AclView {
                    default_groups: self.inner@.acl.default_groups.push(entry),
                    ..self.inner@.acl
                },
                ..self.inner@
            }),
    {
        let mut this = self;
        this.inner.acl.default_groups.push(entry);
        this
    }

    /// Set the default ACL entry for a directory.
    pub fn default_acl(self, entry: Option<acl::Default>) -> (r: Self)
        ensures
            r.inner@ == (MetadataView {
                acl: AclView { default: entry, ..self.inner@.acl },
                ..self.inner@
            }),
    {
        let mut this = self;
        this.inner.acl.default = entry;
        this
    }

    /// Set the quota project id.
    pub fn quota_project_id(self, id: Option<u64>) -> (r: Self)
        ensures
            r.inner@ == (MetadataView {
                quota_project_id: match id {
                    Some(projid) => Some(QuotaProjectId { projid }),
                    None => None,
                },
                ..self.inner@
            }),
    {
        let mut this = self;
        this.inner.quota_project_id =
        match id {
            Some(projid) => Some(QuotaProjectId { projid }),
            None => None,
        };
        this
    }

    /// Set the raw file capability data.
    pub fn fcaps(self, fcaps: Option<Vec<u8>>) -> (r: Self)
        ensures
            r.inner@ == (MetadataView {
                fcaps: match fcaps {
                    Some(data) => Some(data@),
                    None => None,
                },
                ..self.inner@
            }),
    {
        let mut this = self;
        this.inner.fcaps =
        match fcaps {
            Some(data) => Some(FCaps { data }),
            None => None,
        };
        this
    }
}

impl vstd::std_specs::convert::FromSpecImpl<MetadataBuilder> for Metadata {
    open spec fn obeys_from_spec() -> bool {
        true
    }

    open spec fn from_spec(builder: MetadataBuilder) -> Self {
        builder.inner
    }
}

impl From<MetadataBuilder> for Metadata {
    fn from(builder: MetadataBuilder) -> (r: Self) {
        builder.build()
    }
}

/// ACL entries of a pxar archive.
///
/// This contains all the various ACL entry types supported by the pxar archive format.
#[derive(Debug, PartialEq, Eq)]
pub struct Acl {
    /// User ACL list.
    pub users: Vec<acl::User>,

    /// Group ACL list.
    pub groups: Vec<acl::Group>,

    /// Group object ACL entry.
    pub group_obj: Option<acl::GroupObject>,

    /// Default permissions.
    pub default: Option<acl::Default>,

    /// Default user permissions.
    pub default_users: Vec<acl::User>,

    /// Default group permissions.
    pub default_groups: Vec<acl::Group>,
}

/// The contents of an [`Acl`].
#[verifier::ext_equal]
pub struct AclView {
    pub users: Seq<acl::User>,
    pub groups: Seq<acl::Group>,
    pub group_obj: Option<acl::GroupObject>,
    pub default: Option<acl::Default>,
    pub default_users: Seq<acl::User>,
    pub default_groups: Seq<acl::Group>,
}

impl AclView {
    pub open spec fn empty() -> Self {
        AclView {
            users: Seq::empty(),
            groups: Seq::empty(),
            group_obj: None,
            default: None,
            default_users: Seq::empty(),
            default_groups: Seq::empty(),
        }
    }
}

impl View for Acl {
    type V = AclView;

    open spec fn view(&self) -> AclView {
        AclView {
            users: self.users@,
            groups: self.groups@,
            group_obj: self.group_obj,
            default: self.default,
            default_users: self.default_users@,
            default_groups: self.default_groups@,
        }
    }
}

impl Clone for Acl {
    fn clone(&self) -> (r: Self)
        ensures
            r@ == self@,
    {
        Acl {
            users: copy_vec(&self.users),
            groups: copy_vec(&self.groups),
            group_obj: self.group_obj,
            default: self.default,
            default_users: copy_vec(&self.default_users),
            default_groups: copy_vec(&self.default_groups),
        }
    }
}

impl std::default::Default for Acl {
    fn default() -> (r: Self)
        ensures
            r@ == AclView::empty(),
    {
        Acl {
            users: Vec::new(),
            groups: Vec::new(),
            group_obj: None,
            default: None,
            default_users: Vec::new(),
            default_groups: Vec::new(),
        }
    }
}

impl Acl {
    /// Check whether there is no entry at all.
    pub fn is_empty(&self) -> (r: bool)
        ensures
            r == (self@ == AclView::empty()),
    {
        let r = self.users.len() == 0 && self.groups.len() == 0 && self.group_obj.is_none()
            && self.default.is_none() && self.default_users.len() == 0 && self.default_groups.len()
            == 0;
        proof {
            if r {
                assert(self@ =~= AclView::empty());
            }
        }
        r
    }
}

} // verus!
