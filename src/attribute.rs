//! Attributes, the attribute list grouped by delimiter, and its serialisation.
use vstd::prelude::*;
use vstd::string::*;
use vstd::utf8::*;
use crate::tag::DelimiterTag;
use crate::value::{be16, encodable, push_all, push_u16, tag_of, text_fits, value_bytes, IppValue, Val};

verus! {

pub const ATTRIBUTES_CHARSET: &'static str = "attributes-charset";
pub const ATTRIBUTES_NATURAL_LANGUAGE: &'static str = "attributes-natural-language";
pub const CHARSET_CONFIGURED: &'static str = "charset-configured";
pub const CHARSET_SUPPORTED: &'static str = "charset-supported";
pub const COMPRESSION_SUPPORTED: &'static str = "compression-supported";
pub const DOCUMENT_FORMAT_DEFAULT: &'static str = "document-format-default";
pub const DOCUMENT_FORMAT_SUPPORTED: &'static str = "document-format-supported";
pub const GENERATED_NATURAL_LANGUAGE_SUPPORTED: &'static str = "generated-natural-language-supported";
pub const IPP_VERSIONS_SUPPORTED: &'static str = "ipp-versions-supported";
pub const NATURAL_LANGUAGE_CONFIGURED: &'static str = "natural-language-configured";
pub const OPERATIONS_SUPPORTED: &'static str = "operations-supported";
pub const PDL_OVERRIDE_SUPPORTED: &'static str = "pdl-override-supported";
pub const PRINTER_IS_ACCEPTING_JOBS: &'static str = "printer-is-accepting-jobs";
pub const PRINTER_MAKE_AND_MODEL: &'static str = "printer-make-and-model";
pub const PRINTER_NAME: &'static str = "printer-name";
pub const PRINTER_STATE: &'static str = "printer-state";
pub const PRINTER_STATE_MESSAGE: &'static str = "printer-state-message";
pub const PRINTER_STATE_REASONS: &'static str = "printer-state-reasons";
pub const PRINTER_UP_TIME: &'static str = "printer-up-time";
pub const PRINTER_URI: &'static str = "printer-uri";
pub const PRINTER_URI_SUPPORTED: &'static str = "printer-uri-supported";
pub const QUEUED_JOB_COUNT: &'static str = "queued-job-count";
pub const URI_AUTHENTICATION_SUPPORTED: &'static str = "uri-authentication-supported";
pub const URI_SECURITY_SUPPORTED: &'static str = "uri-security-supported";
pub const JOB_ID: &'static str = "job-id";
pub const JOB_NAME: &'static str = "job-name";
pub const JOB_STATE: &'static str = "job-state";
pub const JOB_STATE_REASONS: &'static str = "job-state-reasons";
pub const JOB_URI: &'static str = "job-uri";
pub const LAST_DOCUMENT: &'static str = "last-document";
pub const REQUESTING_USER_NAME: &'static str = "requesting-user-name";
pub const STATUS_MESSAGE: &'static str = "status-message";
pub const REQUESTED_ATTRIBUTES: &'static str = "requested-attributes";
pub const SIDES_SUPPORTED: &'static str = "sides-supported";
pub const OUTPUT_MODE_SUPPORTED: &'static str = "output-mode-supported";
pub const COLOR_SUPPORTED: &'static str = "color-supported";
pub const PRINTER_INFO: &'static str = "printer-info";
pub const PRINTER_LOCATION: &'static str = "printer-location";
pub const PRINTER_MORE_INFO: &'static str = "printer-more-info";
pub const PRINTER_RESOLUTION_DEFAULT: &'static str = "printer-resolution-default";
pub const PRINTER_RESOLUTION_SUPPORTED: &'static str = "printer-resolution-supported";
pub const COPIES_SUPPORTED: &'static str = "copies-supported";
pub const COPIES_DEFAULT: &'static str = "copies-default";
pub const SIDES_DEFAULT: &'static str = "sides-default";
pub const PRINT_QUALITY_DEFAULT: &'static str = "print-quality-default";
pub const PRINT_QUALITY_SUPPORTED: &'static str = "print-quality-supported";
pub const FINISHINGS_DEFAULT: &'static str = "finishings-default";
pub const FINISHINGS_SUPPORTED: &'static str = "finishings-supported";
pub const OUTPUT_BIN_DEFAULT: &'static str = "output-bin-default";
pub const OUTPUT_BIN_SUPPORTED: &'static str = "output-bin-supported";
pub const ORIENTATION_REQUESTED_DEFAULT: &'static str = "orientation-requested-default";
pub const ORIENTATION_REQUESTED_SUPPORTED: &'static str = "orientation-requested-supported";
pub const MEDIA_DEFAULT: &'static str = "media-default";
pub const MEDIA_SUPPORTED: &'static str = "media-supported";
pub const PAGES_PER_MINUTE: &'static str = "pages-per-minute";
pub const COLOR_MODE_SUPPORTED: &'static str = "color-mode-supported";
pub const PRINT_COLOR_MODE_SUPPORTED: &'static str = "print-color-mode-supported";

/// The model of an attribute: its name and the model of its value.
pub type AttrModel = (Seq<char>, Val);

/// The model of a group: its delimiter and its attributes in stored order.
pub type GroupModel = (DelimiterTag, Seq<AttrModel>);

/// The wire bytes of one attribute: tag, name length, name, value.
pub open spec fn attr_bytes(a: AttrModel) -> Seq<u8> {
    seq![tag_of(a.1)] + be16(encode_utf8(a.0).len()) + encode_utf8(a.0) + value_bytes(a.1)
}

/// An attribute the encoding can carry.
pub open spec fn attr_writable(a: AttrModel) -> bool {
    encode_utf8(a.0).len() <= 0xffff && encodable(a.1)
}

/// One name/value pair.
#[derive(Debug)]
pub struct IppAttribute {
    name: String,
    value: IppValue,
}

impl View for IppAttribute {
    type V = AttrModel;

    closed spec fn view(&self) -> AttrModel {
        (self.name@, self.value.model())
    }
}

/// Whether two strings hold the same characters.
pub fn str_eq(a: &str, b: &str) -> (r: bool)
    ensures
        r == (a@ == b@),
{
    let x = a.as_bytes();
    let y = b.as_bytes();
    proof {
        encode_utf8_decode_utf8(a@);
        encode_utf8_decode_utf8(b@);
    }
    if x.len() != y.len() {
        return false;
    }
    let mut i: usize = 0;
    while i < x.len()
        invariant
            x@.len() == y@.len(),
            x@ == encode_utf8(a@),
            y@ == encode_utf8(b@),
            0 <= i <= x@.len(),
            forall|j: int| 0 <= j < i ==> x@[j] == y@[j],
        decreases x@.len() - i,
    {
        if x[i] != y[i] {
            assert(x@ != y@);
            return false;
        }
        i = i + 1;
    }
    assert(x@ =~= y@);
    true
}

/// The three attributes that lead the operation group on the wire, in order.
pub open spec fn is_header_name(n: Seq<char>) -> bool {
    n == ATTRIBUTES_CHARSET@ || n == ATTRIBUTES_NATURAL_LANGUAGE@ || n == PRINTER_URI@
}

/// Whether `name` is one of the three header attributes.
pub fn is_header_attr(name: &str) -> (r: bool)
    ensures
        r == is_header_name(name@),
{
    str_eq(name, ATTRIBUTES_CHARSET) || str_eq(name, ATTRIBUTES_NATURAL_LANGUAGE) || str_eq(
        name,
        PRINTER_URI,
    )
}

impl IppAttribute {
    /// An attribute of the given name and value.
    pub fn new(name: &str, value: IppValue) -> (r: IppAttribute)
        ensures
            r@ == (name@, value.model()),
    {
        IppAttribute { name: name.to_owned(), value }
    }

    /// The attribute's name.
    pub fn name(&self) -> (r: &str)
        ensures
            r@ == self@.0,
    {
        self.name.as_str()
    }

    /// The attribute's value.
    pub fn value(&self) -> (r: &IppValue)
        ensures
            r.model() == self@.1,
    {
        &self.value
    }

    /// Whether the attribute can be written.
    pub fn is_writable(&self) -> (r: bool)
        ensures
            r == attr_writable(self@),
    {
        text_fits(&self.name) && self.value.is_encodable()
    }

    /// Appends the attribute's wire bytes to `buf` and returns how many there were.
    pub fn write(&self, buf: &mut Vec<u8>) -> (r: usize)
        requires
            attr_writable(self@),
        ensures
            final(buf)@ == old(buf)@ + attr_bytes(self@),
            r == attr_bytes(self@).len(),
    {
        let start = buf.len();
        buf.push(self.value.to_tag());
        let b = self.name.as_str().as_bytes();
        push_u16(buf, b.len() as u16);
        push_all(buf, b);
        self.value.write(buf);
        assert(buf@ =~= old(buf)@ + attr_bytes(self@));
        buf.len() - start
    }
}

/// The attributes of a stored group, as models.
pub open spec fn attrs_model(v: Seq<IppAttribute>) -> Seq<AttrModel> {
    v.map_values(|a: IppAttribute| a@)
}

/// Names are unique within the group.
pub open spec fn names_unique(s: Seq<AttrModel>) -> bool {
    forall|i: int, j: int| 0 <= i < s.len() && 0 <= j < s.len() && #[trigger] s[i].0 == #[trigger] s[j].0 ==> i == j
}

/// A well-formed list: each delimiter at most once, no empty group, and names
/// unique within each group.
pub open spec fn list_wf(l: Seq<GroupModel>) -> bool {
    &&& forall|i: int, j: int| 0 <= i < l.len() && 0 <= j < l.len() && #[trigger] l[i].0 == #[trigger] l[j].0 ==> i == j
    &&& forall|i: int| 0 <= i < l.len() ==> #[trigger] l[i].1.len() > 0 && names_unique(l[i].1)
}

pub open spec fn has_group(l: Seq<GroupModel>, g: DelimiterTag) -> bool {
    exists|i: int| 0 <= i < l.len() && #[trigger] l[i].0 == g
}

/// The position of group `g` (meaningful where `has_group`).
pub open spec fn group_pos(l: Seq<GroupModel>, g: DelimiterTag) -> int {
    choose|i: int| 0 <= i < l.len() && #[trigger] l[i].0 == g
}

pub open spec fn has_name(s: Seq<AttrModel>, n: Seq<char>) -> bool {
    exists|k: int| 0 <= k < s.len() && #[trigger] s[k].0 == n
}

pub open spec fn name_pos(s: Seq<AttrModel>, n: Seq<char>) -> int {
    choose|k: int| 0 <= k < s.len() && #[trigger] s[k].0 == n
}

/// Stores `a` in a group: it replaces the attribute of the same name in place,
/// or else comes last.
pub open spec fn put_attr(s: Seq<AttrModel>, a: AttrModel) -> Seq<AttrModel> {
    if has_name(s, a.0) {
        s.update(name_pos(s, a.0), a)
    } else {
        s.push(a)
    }
}

/// Adding `a` to group `g`: the group is created, last, on first use.
pub open spec fn list_add(l: Seq<GroupModel>, g: DelimiterTag, a: AttrModel) -> Seq<GroupModel> {
    if has_group(l, g) {
        let i = group_pos(l, g);
        l.update(i, (g, put_attr(l[i].1, a)))
    } else {
        l.push((g, seq![a]))
    }
}

/// The value stored under `n` in group `g`.
pub open spec fn lookup(l: Seq<GroupModel>, g: DelimiterTag, n: Seq<char>) -> Option<Val> {
    if has_group(l, g) && has_name(l[group_pos(l, g)].1, n) {
        let s = l[group_pos(l, g)].1;
        Some(s[name_pos(s, n)].1)
    } else {
        None
    }
}

/// Position of the attribute named `name`, if present.
fn find_name(attrs: &Vec<IppAttribute>, name: &str) -> (r: Option<usize>)
    requires
        names_unique(attrs_model(attrs@)),
    ensures
        r is None ==> !has_name(attrs_model(attrs@), name@),
        r matches Some(k) ==> k < attrs@.len() && has_name(attrs_model(attrs@), name@) && name_pos(
            attrs_model(attrs@),
            name@,
        ) == k,
{
    let ghost s = attrs_model(attrs@);
    let mut k: usize = 0;
    while k < attrs.len()
        invariant
            0 <= k <= attrs@.len(),
            s == attrs_model(attrs@),
            names_unique(s),
            forall|j: int| 0 <= j < k ==> s[j].0 != name@,
        decreases attrs@.len() - k,
    {
        if str_eq(attrs[k].name.as_str(), name) {
            assert(s[k as int].0 == name@);
            assert(has_name(s, name@));
            assert(s[name_pos(s, name@)].0 == name@);
            return Some(k);
        }
        k = k + 1;
    }
    None
}

/// A header attribute's bytes, where the operation group holds it.
pub open spec fn header_bytes(l: Seq<GroupModel>, n: Seq<char>) -> Seq<u8> {
    match lookup(l, DelimiterTag::OperationAttributes, n) {
        Some(v) => attr_bytes((n, v)),
        None => Seq::empty(),
    }
}

/// The bytes of a group's attributes in stored order, leaving out the header
/// attributes where `skip_header` holds.
pub open spec fn attrs_bytes(s: Seq<AttrModel>, skip_header: bool) -> Seq<u8>
    decreases s.len(),
{
    if s.len() == 0 {
        Seq::empty()
    } else {
        attrs_bytes(s.drop_last(), skip_header) + if skip_header && is_header_name(s.last().0) {
            Seq::empty()
        } else {
            attr_bytes(s.last())
        }
    }
}

/// The bytes of group `g` in the body of the document: its delimiter (the
/// operation group's was sent first of all) and its remaining attributes.
pub open spec fn group_bytes(l: Seq<GroupModel>, g: DelimiterTag) -> Seq<u8> {
    if has_group(l, g) {
        let opening = if g == DelimiterTag::OperationAttributes { Seq::empty() } else { seq![g.byte()] };
        opening + attrs_bytes(l[group_pos(l, g)].1, g == DelimiterTag::OperationAttributes)
    } else {
        Seq::empty()
    }
}

/// The serialised document: the operation delimiter, the three header
/// attributes in fixed order, the operation, job and printer groups, the end
/// marker.
pub open spec fn list_bytes(l: Seq<GroupModel>) -> Seq<u8> {
    seq![crate::tag::OPERATION_ATTRIBUTES_TAG] + header_bytes(l, ATTRIBUTES_CHARSET@) + header_bytes(
        l,
        ATTRIBUTES_NATURAL_LANGUAGE@,
    ) + header_bytes(l, PRINTER_URI@) + group_bytes(l, DelimiterTag::OperationAttributes) + group_bytes(
        l,
        DelimiterTag::JobAttributes,
    ) + group_bytes(l, DelimiterTag::PrinterAttributes) + seq![crate::tag::END_OF_ATTRIBUTES_TAG]
}

/// Every attribute of the list can be written.
pub open spec fn list_writable(l: Seq<GroupModel>) -> bool {
    forall|i: int, k: int| 0 <= i < l.len() && 0 <= k < l[i].1.len() ==> attr_writable(#[trigger] l[i].1[k])
}

/// Attribute list indexed by group and name.
#[derive(Debug)]
pub struct IppAttributeList {
    groups: Vec<(DelimiterTag, Vec<IppAttribute>)>,
}

impl View for IppAttributeList {
    type V = Seq<GroupModel>;

    closed spec fn view(&self) -> Seq<GroupModel> {
        self.groups@.map_values(|p: (DelimiterTag, Vec<IppAttribute>)| (p.0, attrs_model(p.1@)))
    }
}

impl IppAttributeList {
    /// The list's structural invariant.
    pub open spec fn wf(&self) -> bool {
        list_wf(self@)
    }

    /// An empty list.
    pub fn new() -> (r: IppAttributeList)
        ensures
            r@ == Seq::<GroupModel>::empty(),
            r.wf(),
    {
        let r = IppAttributeList { groups: Vec::new() };
        assert(r@ =~= Seq::<GroupModel>::empty());
        r
    }

    /// Position of group `g` in storage, if present.
    fn find_group(&self, g: DelimiterTag) -> (r: Option<usize>)
        requires
            self.wf(),
        ensures
            r is None ==> !has_group(self@, g),
            r matches Some(i) ==> i < self@.len() && self@[i as int].0 == g && group_pos(self@, g) == i,
    {
        let mut i: usize = 0;
        while i < self.groups.len()
            invariant
                0 <= i <= self.groups@.len(),
                self.wf(),
                self@.len() == self.groups@.len(),
                forall|j: int| 0 <= j < i ==> self@[j].0 != g,
            decreases self.groups@.len() - i,
        {
            if self.groups[i].0 == g {
                assert(self@[i as int].0 == g);
                return Some(i);
            }
            i = i + 1;
        }
        None
    }

    /// Adds `attribute` to `group`, replacing one of the same name there.
    pub fn add(&mut self, group: DelimiterTag, attribute: IppAttribute)
        requires
            old(self).wf(),
        ensures
            final(self).wf(),
            final(self)@ == list_add(old(self)@, group, attribute@),
            lookup(final(self)@, group, attribute@.0) == Some(attribute@.1),
            forall|g2: DelimiterTag, n2: Seq<char>|
                (g2 != group || n2 != attribute@.0) ==> #[trigger] lookup(final(self)@, g2, n2) == lookup(
                    old(self)@,
                    g2,
                    n2,
                ),
    {
        let ghost a = attribute@;
        proof {
            lookup_after_add(old(self)@, group, a, group, a.0);
            assert forall|g2: DelimiterTag, n2: Seq<char>|
                (g2 != group || n2 != a.0) implies #[trigger] lookup(list_add(old(self)@, group, a), g2, n2)
                == lookup(old(self)@, g2, n2) by {
                lookup_after_add(old(self)@, group, a, g2, n2);
            }
        }
        match self.find_group(group) {
            None => {
                let mut v: Vec<IppAttribute> = Vec::new();
                v.push(attribute);
                self.groups.push((group, v));
                assert(attrs_model(v@) =~= seq![a]);
                assert(self@ =~= list_add(old(self)@, group, a));
            },
            Some(i) => {
                let (t, mut attrs) = self.groups.remove(i);
                let ghost s = attrs_model(attrs@);
                assert(s == old(self)@[i as int].1);
                let found = find_name(&attrs, attribute.name.as_str());
                if let Some(k) = found {
                    assert(has_name(s, a.0));
                    attrs.remove(k);
                    attrs.insert(k, attribute);
                    assert(attrs_model(attrs@) =~= put_attr(s, a));
                } else {
                    attrs.push(attribute);
                    assert(!has_name(s, a.0));
                    assert(attrs_model(attrs@) =~= put_attr(s, a));
                }
                self.groups.insert(i, (t, attrs));
                assert(self@ =~= list_add(old(self)@, group, a));
            },
        }
    }

    /// The attribute named `name` in `group`.
    pub fn get(&self, group: DelimiterTag, name: &str) -> (r: Option<&IppAttribute>)
        requires
            self.wf(),
        ensures
            r is None ==> lookup(self@, group, name@) is None,
            r matches Some(a) ==> a@.0 == name@ && lookup(self@, group, name@) == Some(a@.1),
    {
        match self.find_group(group) {
            None => None,
            Some(i) => {
                let attrs = &self.groups[i].1;
                assert(attrs_model(attrs@) == self@[i as int].1);
                match find_name(attrs, name) {
                    None => None,
                    Some(k) => {
                        assert(attrs_model(attrs@)[k as int] == attrs@[k as int]@);
                        Some(&attrs[k])
                    },
                }
            },
        }
    }

    /// The attributes of `group`, in stored order.
    pub fn get_group(&self, group: DelimiterTag) -> (r: Option<&Vec<IppAttribute>>)
        requires
            self.wf(),
        ensures
            r is None ==> !has_group(self@, group),
            r matches Some(v) ==> has_group(self@, group) && attrs_model(v@) == self@[group_pos(self@, group)].1,
    {
        match self.find_group(group) {
            None => None,
            Some(i) => Some(&self.groups[i].1),
        }
    }

    /// The printer group.
    pub fn get_printer_attributes(&self) -> (r: Option<&Vec<IppAttribute>>)
        requires
            self.wf(),
        ensures
            r is None ==> !has_group(self@, DelimiterTag::PrinterAttributes),
            r matches Some(v) ==> has_group(self@, DelimiterTag::PrinterAttributes) && attrs_model(v@)
                == self@[group_pos(self@, DelimiterTag::PrinterAttributes)].1,
    {
        self.get_group(DelimiterTag::PrinterAttributes)
    }

    /// The job group.
    pub fn get_job_attributes(&self) -> (r: Option<&Vec<IppAttribute>>)
        requires
            self.wf(),
        ensures
            r is None ==> !has_group(self@, DelimiterTag::JobAttributes),
            r matches Some(v) ==> has_group(self@, DelimiterTag::JobAttributes) && attrs_model(v@)
                == self@[group_pos(self@, DelimiterTag::JobAttributes)].1,
    {
        self.get_group(DelimiterTag::JobAttributes)
    }

    /// The operation group.
    pub fn get_operation_attributes(&self) -> (r: Option<&Vec<IppAttribute>>)
        requires
            self.wf(),
        ensures
            r is None ==> !has_group(self@, DelimiterTag::OperationAttributes),
            r matches Some(v) ==> has_group(self@, DelimiterTag::OperationAttributes) && attrs_model(v@)
                == self@[group_pos(self@, DelimiterTag::OperationAttributes)].1,
    {
        self.get_group(DelimiterTag::OperationAttributes)
    }

    /// Whether every attribute of the list can be written.
    pub fn is_writable(&self) -> (r: bool)
        ensures
            r == list_writable(self@),
    {
        let mut i: usize = 0;
        while i < self.groups.len()
            invariant
                0 <= i <= self.groups@.len(),
                self@.len() == self.groups@.len(),
                forall|g: int, k: int| 0 <= g < i && 0 <= k < self@[g].1.len() ==> attr_writable(#[trigger] self@[g].1[k]),
            decreases self.groups@.len() - i,
        {
            let attrs = &self.groups[i].1;
            assert(attrs_model(attrs@) == self@[i as int].1);
            let mut k: usize = 0;
            while k < attrs.len()
                invariant
                    0 <= i < self.groups@.len(),
                    self@.len() == self.groups@.len(),
                    attrs == &self.groups@[i as int].1,
                    attrs_model(attrs@) == self@[i as int].1,
                    0 <= k <= attrs@.len(),
                    forall|g: int, j: int| 0 <= g < i && 0 <= j < self@[g].1.len() ==> attr_writable(#[trigger] self@[g].1[j]),
                    forall|j: int| 0 <= j < k ==> attr_writable(#[trigger] self@[i as int].1[j]),
                decreases attrs@.len() - k,
            {
                assert(self@[i as int].1[k as int] == attrs@[k as int]@);
                if !attrs[k].is_writable() {
                    return false;
                }
                k = k + 1;
            }
            i = i + 1;
        }
        true
    }

    /// Appends the attributes of `group` in stored order, leaving out the header
    /// attributes where `skip_header` holds.
    fn write_attrs(attrs: &Vec<IppAttribute>, skip_header: bool, buf: &mut Vec<u8>)
        requires
            forall|k: int| 0 <= k < attrs@.len() ==> attr_writable(#[trigger] attrs@[k]@),
        ensures
            final(buf)@ == old(buf)@ + attrs_bytes(attrs_model(attrs@), skip_header),
    {
        let ghost s = attrs_model(attrs@);
        let mut k: usize = 0;
        assert(s.subrange(0, 0) =~= Seq::<AttrModel>::empty());
        while k < attrs.len()
            invariant
                0 <= k <= attrs@.len(),
                s == attrs_model(attrs@),
                forall|j: int| 0 <= j < attrs@.len() ==> attr_writable(#[trigger] attrs@[j]@),
                buf@ == old(buf)@ + attrs_bytes(s.subrange(0, k as int), skip_header),
            decreases attrs@.len() - k,
        {
            let a = &attrs[k];
            if !(skip_header && is_header_attr(a.name())) {
                assert(attr_writable(attrs@[k as int]@));
                a.write(buf);
            }
            assert(s.subrange(0, k + 1).drop_last() =~= s.subrange(0, k as int));
            k = k + 1;
            assert(buf@ =~= old(buf)@ + attrs_bytes(s.subrange(0, k as int), skip_header));
        }
        assert(s.subrange(0, k as int) =~= s);
    }

    /// Appends group `group` of the body: its delimiter (but for the operation
    /// group) and its attributes, the header attributes left out.
    fn write_group(&self, group: DelimiterTag, buf: &mut Vec<u8>)
        requires
            self.wf(),
            list_writable(self@),
        ensures
            final(buf)@ == old(buf)@ + group_bytes(self@, group),
    {
        match self.find_group(group) {
            None => {
                assert(buf@ =~= old(buf)@ + group_bytes(self@, group));
            },
            Some(i) => {
                let op = group == DelimiterTag::OperationAttributes;
                if !op {
                    buf.push(group.to_u8());
                }
                let attrs = &self.groups[i].1;
                assert(attrs_model(attrs@) == self@[i as int].1);
                assert forall|k: int| 0 <= k < attrs@.len() implies attr_writable(#[trigger] attrs@[k]@) by {
                    assert(attrs_model(attrs@)[k] == attrs@[k]@);
                    assert(attr_writable(self@[i as int].1[k]));
                }
                Self::write_attrs(attrs, op, buf);
                assert(buf@ =~= old(buf)@ + group_bytes(self@, group));
            },
        }
    }

    /// Appends the document's wire bytes to `buf` and returns how many there were.
    #[verifier::spinoff_prover]
    #[verifier::rlimit(50)]
    pub fn write(&self, buf: &mut Vec<u8>) -> (r: usize)
        requires
            self.wf(),
            list_writable(self@),
        ensures
            final(buf)@ == old(buf)@ + list_bytes(self@),
            r == list_bytes(self@).len(),
    {
        let start = buf.len();
        buf.push(DelimiterTag::OperationAttributes.to_u8());
        let ghost b0 = buf@;
        let hdrs: [&'static str; 3] = [ATTRIBUTES_CHARSET, ATTRIBUTES_NATURAL_LANGUAGE, PRINTER_URI];
        let mut h: usize = 0;
        while h < 3
            invariant
                0 <= h <= 3,
                self.wf(),
                list_writable(self@),
                hdrs@ == seq![ATTRIBUTES_CHARSET, ATTRIBUTES_NATURAL_LANGUAGE, PRINTER_URI],
                h == 0 ==> buf@ == b0,
                h == 1 ==> buf@ == b0 + header_bytes(self@, ATTRIBUTES_CHARSET@),
                h == 2 ==> buf@ == b0 + header_bytes(self@, ATTRIBUTES_CHARSET@) + header_bytes(
                    self@,
                    ATTRIBUTES_NATURAL_LANGUAGE@,
                ),
                h == 3 ==> buf@ == b0 + header_bytes(self@, ATTRIBUTES_CHARSET@) + header_bytes(
                    self@,
                    ATTRIBUTES_NATURAL_LANGUAGE@,
                ) + header_bytes(self@, PRINTER_URI@),
            decreases 3 - h,
        {
            let ghost before = buf@;
            let name = hdrs[h];
            if let Some(attr) = self.get(DelimiterTag::OperationAttributes, name) {
                let ghost gi = group_pos(self@, DelimiterTag::OperationAttributes);
                let ghost s = self@[gi].1;
                assert(attr_writable(s[name_pos(s, name@)]));
                assert(attr@ == s[name_pos(s, name@)]);
                attr.write(buf);
            }
            assert(buf@ =~= before + header_bytes(self@, name@));
            h = h + 1;
        }
        self.write_group(DelimiterTag::OperationAttributes, buf);
        self.write_group(DelimiterTag::JobAttributes, buf);
        self.write_group(DelimiterTag::PrinterAttributes, buf);
        buf.push(DelimiterTag::EndOfAttributes.to_u8());
        assert(buf@ =~= old(buf)@ + list_bytes(self@));
        buf.len() - start
    }
}

/// Where the operation group holds the three header attributes, the document
/// opens with the operation delimiter and then exactly those three, in the
/// order charset, natural language, printer URI, whatever order they were added
/// in; the groups follow, the operation group without those three.
pub proof fn header_attributes_lead(l: Seq<GroupModel>, c: Val, n: Val, u: Val)
    requires
        lookup(l, DelimiterTag::OperationAttributes, ATTRIBUTES_CHARSET@) == Some(c),
        lookup(l, DelimiterTag::OperationAttributes, ATTRIBUTES_NATURAL_LANGUAGE@) == Some(n),
        lookup(l, DelimiterTag::OperationAttributes, PRINTER_URI@) == Some(u),
    ensures
        list_bytes(l) == seq![crate::tag::OPERATION_ATTRIBUTES_TAG] + attr_bytes((ATTRIBUTES_CHARSET@, c))
            + attr_bytes((ATTRIBUTES_NATURAL_LANGUAGE@, n)) + attr_bytes((PRINTER_URI@, u)) + group_bytes(
            l,
            DelimiterTag::OperationAttributes,
        ) + group_bytes(l, DelimiterTag::JobAttributes) + group_bytes(l, DelimiterTag::PrinterAttributes)
            + seq![crate::tag::END_OF_ATTRIBUTES_TAG],
{
}

/// After adding `a` to group `g`, the list is still well formed, looking up
/// `a`'s name in `g` gives `a`'s value, and every other lookup is unchanged.
pub proof fn lookup_after_add(l: Seq<GroupModel>, g: DelimiterTag, a: AttrModel, g2: DelimiterTag, n2: Seq<char>)
    requires
        list_wf(l),
    ensures
        list_wf(list_add(l, g, a)),
        lookup(list_add(l, g, a), g, a.0) == Some(a.1),
        (g2 != g || n2 != a.0) ==> lookup(list_add(l, g, a), g2, n2) == lookup(l, g2, n2),
{
    let l2 = list_add(l, g, a);
    if has_group(l, g) {
        let i = group_pos(l, g);
        let s = l[i].1;
        let s2 = put_attr(s, a);
        assert(l2[i] == (g, s2));
        if has_name(s, a.0) {
            let k = name_pos(s, a.0);
            assert(s2[k] == a);
            assert(names_unique(s2)) by {
                assert forall|x: int, y: int| 0 <= x < s2.len() && 0 <= y < s2.len() && #[trigger] s2[x].0 == #[trigger] s2[y].0 implies x == y by {
                    assert(s2[x].0 == s[x].0);
                    assert(s2[y].0 == s[y].0);
                }
            }
        } else {
            assert(s2[s.len() as int] == a);
            assert(names_unique(s2)) by {
                assert forall|x: int, y: int| 0 <= x < s2.len() && 0 <= y < s2.len() && #[trigger] s2[x].0 == #[trigger] s2[y].0 implies x == y by {
                    if x < s.len() && y < s.len() {
                        assert(s2[x] == s[x]);
                        assert(s2[y] == s[y]);
                    } else if x < s.len() {
                        assert(s[x].0 == a.0);
                    } else if y < s.len() {
                        assert(s[y].0 == a.0);
                    }
                }
            }
        }
        assert(list_wf(l2)) by {
            assert forall|x: int, y: int| 0 <= x < l2.len() && 0 <= y < l2.len() && #[trigger] l2[x].0 == #[trigger] l2[y].0 implies x == y by {
                assert(l2[x].0 == l[x].0);
                assert(l2[y].0 == l[y].0);
            }
            assert forall|x: int| 0 <= x < l2.len() implies #[trigger] l2[x].1.len() > 0 && names_unique(l2[x].1) by {
                if x != i {
                    assert(l2[x] == l[x]);
                }
            }
        }
        assert(0 <= i < l2.len() && l2[i].0 == g);
        assert(has_group(l2, g));
        assert(l2[group_pos(l2, g)].0 == g);
        assert(group_pos(l2, g) == i);
        assert(has_name(s2, a.0));
        assert(s2[name_pos(s2, a.0)].0 == a.0);
        if (g2 != g || n2 != a.0) {
            if g2 != g {
                if has_group(l, g2) {
                    let j = group_pos(l, g2);
                    assert(l2[j] == l[j]);
                    assert(has_group(l2, g2));
                    assert(l2[group_pos(l2, g2)].0 == g2);
                    assert(group_pos(l2, g2) == j);
                } else {
                    assert forall|x: int| 0 <= x < l2.len() implies #[trigger] l2[x].0 != g2 by {
                        assert(l2[x].0 == l[x].0);
                    }
                }
            } else {
                if has_name(s, n2) {
                    let k = name_pos(s, n2);
                    assert(s2[k] == s[k]);
                    assert(has_name(s2, n2));
                    assert(s2[name_pos(s2, n2)].0 == n2);
                    assert(name_pos(s2, n2) == k);
                } else {
                    assert forall|x: int| 0 <= x < s2.len() implies #[trigger] s2[x].0 != n2 by {
                        if x < s.len() {
                            assert(s2[x].0 == s[x].0);
                        }
                    }
                }
            }
        }
    } else {
        let i = l.len() as int;
        assert(l2[i] == (g, seq![a]));
        assert(list_wf(l2)) by {
            assert forall|x: int, y: int| 0 <= x < l2.len() && 0 <= y < l2.len() && #[trigger] l2[x].0 == #[trigger] l2[y].0 implies x == y by {
                if x < i && y < i {
                    assert(l2[x] == l[x]);
                    assert(l2[y] == l[y]);
                } else if x < i {
                    assert(l[x].0 == g);
                } else if y < i {
                    assert(l[y].0 == g);
                }
            }
            assert forall|x: int| 0 <= x < l2.len() implies #[trigger] l2[x].1.len() > 0 && names_unique(l2[x].1) by {
                if x < i {
                    assert(l2[x] == l[x]);
                }
            }
        }
        assert(0 <= i < l2.len() && l2[i].0 == g);
        assert(has_group(l2, g));
        assert(l2[group_pos(l2, g)].0 == g);
        assert(group_pos(l2, g) == i);
        let s2 = seq![a];
        assert(s2[0] == a);
        assert(has_name(s2, a.0));
        if g2 != g && has_group(l, g2) {
            let j = group_pos(l, g2);
            assert(l2[j] == l[j]);
            assert(has_group(l2, g2));
            assert(l2[group_pos(l2, g2)].0 == g2);
            assert(group_pos(l2, g2) == j);
        } else if g2 != g {
            assert forall|x: int| 0 <= x < l2.len() implies #[trigger] l2[x].0 != g2 by {
                if x < i {
                    assert(l2[x] == l[x]);
                }
            }
        } else if n2 != a.0 {
            assert forall|x: int| 0 <= x < s2.len() implies #[trigger] s2[x].0 != n2 by {}
        }
    }
}

} // verus!
