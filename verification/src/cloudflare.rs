//! The provider-native record model of the Cloudflare frontend and the
//! verified core of its sync pass: ownership watermarking, instance
//! scoping, response validation, pagination arithmetic and the write plan
//! (deletes first, then updates, then creates; dry runs never plan a
//! write).

use vstd::prelude::*;
use vstd::string::{StrSliceExecFns, StringExecFns};
use crate::text::{
    contains_seq, eq_ignore_case, find_first, find_str, lemma_find_first_is, occurs_at,
    str_contains, str_eq, str_eq_ignore_ascii_case, to_ascii_upper, trim_spec, trim_str,
    upper_seq,
};
use crate::records::{Diffable, Manage, Match, Record, RecordV, Update, views};
use crate::errors::Error;

verus! {

/// The watermark a comment must contain for a record to count as managed.
pub open spec fn watermark() -> Seq<char> {
    "Managed by DNSSync"@
}

/// The watermark, as a string.
pub fn watermark_str() -> (r: &'static str)
    ensures
        r@ == watermark(),
{
    "Managed by DNSSync"
}

/// The prefix that introduces the instance scope inside a comment.
pub open spec fn instance_prefix() -> Seq<char> {
    "instance:"@
}

/// The instance-scope prefix, as a string.
pub fn instance_prefix_str() -> (r: &'static str)
    ensures
        r@ == instance_prefix(),
{
    "instance:"
}

/// The comment stamped on a record owned by instance `id`.
pub open spec fn stamped_comment(id: Seq<char>) -> Seq<char> {
    watermark() + " "@ + instance_prefix() + id
}

/// A freshly stamped comment carries the watermark: a record that is
/// re-stamped before writing is managed.
pub proof fn lemma_stamped_is_managed(id: Seq<char>)
    ensures
        contains_seq(stamped_comment(id), watermark()),
{
    assert(occurs_at(stamped_comment(id), watermark(), 0)) by {
        assert(stamped_comment(id).subrange(0, watermark().len() as int) =~= watermark());
    }
}

/// Stamping a comment and then reading the instance scope back yields
/// the stamped identifier, up to surrounding ASCII whitespace.
pub proof fn lemma_stamp_scopes_to_instance(v: DNSRecordV, id: Seq<char>)
    requires
        v.comment == Option::Some(stamped_comment(id)),
    ensures
        instance_id_of(v) == Option::Some(trim_spec(id)),
{
    reveal_strlit("Managed by DNSSync");
    reveal_strlit(" ");
    reveal_strlit("instance:");
    let w = watermark();
    let p = instance_prefix();
    let c = stamped_comment(id);
    assert(w.len() == 18);
    assert(p.len() == 9);
    assert(c.len() == 28 + id.len());
    assert(occurs_at(c, p, 19)) by {
        assert(c.subrange(19, 28) =~= p);
    }
    assert(p[0] == 'i');
    assert forall|j: int| 0 <= j < 19 implies !occurs_at(c, p, j) by {
        if occurs_at(c, p, j) {
            assert(c.subrange(j, j + 9)[0] == c[j]);
            assert(c[j] == 'i');
            if j < 18 {
                assert(c[j] == w[j]);
                assert(w =~= seq![
                    'M', 'a', 'n', 'a', 'g', 'e', 'd', ' ', 'b', 'y', ' ', 'D', 'N', 'S', 'S',
                    'y', 'n', 'c',
                ]);
                assert(w[j] != 'i');
            } else {
                assert(c[18] == ' ');
            }
        }
    }
    lemma_find_first_is(c, p, 19);
    assert(c.skip(28) =~= id);
}

/// The mathematical view of a provider-native record.
pub struct DNSRecordV {
    pub kind: Seq<char>,
    pub name: Seq<char>,
    pub content: Seq<char>,
    pub comment: Option<Seq<char>>,
    pub ttl: int,
    pub id: Seq<char>,
}

/// A DNS record as the provider stores it: the authoritative fields plus
/// provider identity (an opaque id), a TTL and the ownership comment.
pub struct DNSRecord {
    pub kind: String,
    pub name: String,
    pub content: String,
    pub comment: Option<String>,
    pub ttl: usize,
    pub id: String,
}

impl View for DNSRecord {
    type V = DNSRecordV;

    open spec fn view(&self) -> DNSRecordV {
        DNSRecordV {
            kind: self.kind@,
            name: self.name@,
            content: self.content@,
            comment: match self.comment {
                Option::Some(c) => Option::Some(c@),
                Option::None => Option::None,
            },
            ttl: self.ttl as int,
            id: self.id@,
        }
    }
}

/// The instance scope recorded in a comment: what follows the first
/// `instance:` marker, with surrounding ASCII whitespace removed.
pub open spec fn instance_id_of(v: DNSRecordV) -> Option<Seq<char>> {
    match v.comment {
        Option::Some(c) => {
            let p = find_first(c, instance_prefix());
            if p == -1 {
                Option::None
            } else {
                Option::Some(trim_spec(c.skip(p + instance_prefix().len())))
            }
        },
        Option::None => Option::None,
    }
}

impl DNSRecord {
    /// The identifier of the instance this record is scoped to, if its
    /// comment carries an instance marker.
    pub fn get_instance_id(&self) -> (r: Option<String>)
        ensures
            match r {
                Some(s) => instance_id_of(self@) == Option::Some(s@),
                None => instance_id_of(self@) is None,
            },
    {
        match &self.comment {
            Some(c) => {
                match find_str(c.as_str(), instance_prefix_str()) {
                    Some(pos) => {
                        let clen = c.as_str().unicode_len();
                        let start = pos + instance_prefix_str().unicode_len();
                        let rest = c.as_str().substring_char(start, clen);
                        proof {
                            assert(rest@ =~= c@.skip(
                                find_first(c@, instance_prefix()) + instance_prefix().len(),
                            ));
                        }
                        Some(trim_str(rest))
                    },
                    None => None,
                }
            },
            None => None,
        }
    }

    /// Re-stamps this record as owned by instance `instance_id`: the
    /// comment becomes the watermark followed by the instance marker.
    pub fn set_instance_id(&mut self, instance_id: &str)
        ensures
            final(self)@.comment == Option::Some(stamped_comment(instance_id@)),
            final(self)@.kind == old(self)@.kind,
            final(self)@.name == old(self)@.name,
            final(self)@.content == old(self)@.content,
            final(self)@.ttl == old(self)@.ttl,
            final(self)@.id == old(self)@.id,
    {
        let mut c = String::from_str(watermark_str());
        c.append(" ");
        c.append(instance_prefix_str());
        c.append(instance_id);
        self.comment = Some(c);
    }

    /// An exact copy of this record.
    pub fn duplicate(&self) -> (r: Self)
        ensures
            r@ == self@,
    {
        DNSRecord {
            kind: self.kind.clone(),
            name: self.name.clone(),
            content: self.content.clone(),
            comment: match &self.comment {
                Some(c) => Some(c.clone()),
                None => None,
            },
            ttl: self.ttl,
            id: self.id.clone(),
        }
    }
}

impl Clone for DNSRecord {
    fn clone(&self) -> (r: Self)
        ensures
            r@ == self@,
    {
        DNSRecord::duplicate(self)
    }
}

impl Manage for DNSRecord {
    /// A record is managed exactly when its comment contains the watermark.
    open spec fn managed_v(x: DNSRecordV) -> bool {
        match x.comment {
            Option::Some(c) => contains_seq(c, watermark()),
            Option::None => false,
        }
    }

    fn is_managed(&self) -> (r: bool) {
        match &self.comment {
            Some(c) => str_contains(c.as_str(), watermark_str()),
            None => false,
        }
    }
}

impl Match for DNSRecord {
    /// Two records denote the same slot when name and kind are equal,
    /// ignoring ASCII case.
    open spec fn match_v(x: DNSRecordV, y: DNSRecordV) -> bool {
        eq_ignore_case(x.name, y.name) && eq_ignore_case(x.kind, y.kind)
    }

    fn matches(&self, other: &Self) -> (r: bool) {
        str_eq_ignore_ascii_case(self.name.as_str(), other.name.as_str())
            && str_eq_ignore_ascii_case(self.kind.as_str(), other.kind.as_str())
    }
}

impl Update for DNSRecord {
    /// An update replaces the content and preserves every identity field.
    open spec fn update_v(x: DNSRecordV, a: RecordV) -> DNSRecordV {
        DNSRecordV {
            kind: x.kind,
            name: x.name,
            content: a.content,
            comment: x.comment,
            ttl: x.ttl,
            id: x.id,
        }
    }

    fn update(self, authority: Record) -> (r: Self) {
        let mut s = self;
        s.content = authority.content;
        s
    }
}

impl Diffable for DNSRecord {
    /// Conversion upper-cases the kind (ASCII letters only — record
    /// types are plain ASCII), keeps name and content, stamps the bare
    /// watermark, uses the default TTL and leaves the provider id empty
    /// (the provider assigns one on creation).
    open spec fn conv_v(a: RecordV) -> DNSRecordV {
        DNSRecordV {
            kind: upper_seq(a.kind),
            name: a.name,
            content: a.content,
            comment: Option::Some(watermark()),
            ttl: 1,
            id: Seq::empty(),
        }
    }

    fn from_record(r: Record) -> (s: Self) {
        DNSRecord {
            kind: to_ascii_upper(r.kind.as_str()),
            name: r.name,
            content: r.content,
            comment: Some(String::from_str(watermark_str())),
            ttl: 1,
            id: String::new(),
        }
    }

    /// Value equality: same slot and identical content.
    open spec fn same_value_v(x: DNSRecordV, y: DNSRecordV) -> bool {
        eq_ignore_case(x.kind, y.kind) && eq_ignore_case(x.name, y.name) && x.content == y.content
    }

    fn same_value(&self, other: &Self) -> (r: bool) {
        str_eq_ignore_ascii_case(self.kind.as_str(), other.kind.as_str())
            && str_eq_ignore_ascii_case(self.name.as_str(), other.name.as_str())
            && str_eq(self.content.as_str(), other.content.as_str())
    }

    fn duplicate(&self) -> (r: Self) {
        DNSRecord::duplicate(self)
    }
}

/// A zone as the provider lists it.
pub struct Zone {
    pub name: String,
    pub id: String,
}

/// Index of the first zone of `zs` whose name is `domain`, or -1.
pub open spec fn zone_pos(zs: Seq<Zone>, domain: Seq<char>) -> int
    decreases zs.len(),
{
    if zs.len() == 0 {
        -1
    } else if zs[0].name@ == domain {
        0
    } else {
        let m = zone_pos(zs.skip(1), domain);
        if m == -1 {
            -1
        } else {
            m + 1
        }
    }
}

/// `zone_pos` is -1 when no zone name equals `domain`, and otherwise the
/// first index whose zone name equals it.
pub proof fn lemma_zone_pos(zs: Seq<Zone>, domain: Seq<char>)
    ensures
        zone_pos(zs, domain) == -1 ==> forall|i: int| 0 <= i < zs.len() ==> zs[i].name@ != domain,
        zone_pos(zs, domain) != -1 ==> 0 <= zone_pos(zs, domain) < zs.len()
            && zs[zone_pos(zs, domain)].name@ == domain && forall|i: int|
            0 <= i < zone_pos(zs, domain) ==> zs[i].name@ != domain,
    decreases zs.len(),
{
    if zs.len() == 0 {
    } else if zs[0].name@ == domain {
    } else {
        lemma_zone_pos(zs.skip(1), domain);
        assert(forall|i: int| 1 <= i < zs.len() ==> zs[i] == zs.skip(1)[i - 1]);
    }
}

/// A witness to the first equal name determines `zone_pos`.
proof fn lemma_zone_pos_is(zs: Seq<Zone>, domain: Seq<char>, i: int)
    requires
        0 <= i < zs.len(),
        zs[i].name@ == domain,
        forall|k: int| 0 <= k < i ==> zs[k].name@ != domain,
    ensures
        zone_pos(zs, domain) == i,
    decreases zs.len(),
{
    if i == 0 {
    } else {
        assert(forall|k: int| 0 <= k < i - 1 ==> zs.skip(1)[k] == zs[k + 1]);
        lemma_zone_pos_is(zs.skip(1), domain, i - 1);
    }
}

/// When no zone name equals `domain`, `zone_pos` is -1.
proof fn lemma_zone_pos_none(zs: Seq<Zone>, domain: Seq<char>)
    requires
        forall|i: int| 0 <= i < zs.len() ==> zs[i].name@ != domain,
    ensures
        zone_pos(zs, domain) == -1,
    decreases zs.len(),
{
    if zs.len() > 0 {
        assert(forall|k: int| 0 <= k < zs.len() - 1 ==> zs.skip(1)[k] == zs[k + 1]);
        lemma_zone_pos_none(zs.skip(1), domain);
    }
}

/// The id of the first zone whose name equals `domain`, if any.
pub fn find_zone_id(zones: &Vec<Zone>, domain: &str) -> (r: Option<String>)
    ensures
        match r {
            Some(id) => zone_pos(zones@, domain@) >= 0 && id@ == zones@[zone_pos(
                zones@,
                domain@,
            )].id@,
            None => zone_pos(zones@, domain@) == -1,
        },
{
    let n = zones.len();
    for i in 0..n
        invariant
            n == zones@.len(),
            forall|k: int| 0 <= k < i ==> zones@[k].name@ != domain@,
    {
        if str_eq(zones[i].name.as_str(), domain) {
            proof {
                lemma_zone_pos_is(zones@, domain@, i as int);
            }
            return Some(zones[i].id.clone());
        }
    }
    proof {
        lemma_zone_pos_none(zones@, domain@);
    }
    None
}

/// An application-level error the provider reported in a response. The
/// code is the decimal rendering of the provider's numeric error code.
pub struct ApiError {
    pub code: String,
    pub message: String,
}

/// The text of a list of provider errors: `code message; ` for each.
pub open spec fn error_text(errs: Seq<ApiError>) -> Seq<char>
    decreases errs.len(),
{
    if errs.len() == 0 {
        Seq::empty()
    } else {
        error_text(errs.drop_last()) + errs.last().code@ + " "@ + errs.last().message@ + "; "@
    }
}

/// Validates a provider response: success is owed exactly when the
/// response claims success and reports no errors; otherwise the outcome
/// is a response error carrying every reported error.
pub fn response_outcome(success: bool, errors: Vec<ApiError>) -> (r: Result<(), Error>)
    ensures
        r is Ok <==> (success && errors@.len() == 0),
        match r {
            Result::Ok(u) => true,
            Result::Err(e) => match e {
                Error::Response { message } => message@ == "Request unsuccessful: "@ + error_text(
                    errors@,
                ),
                _ => false,
            },
        },
{
    if success && errors.len() == 0 {
        return Ok(());
    }
    let mut msg = String::from_str("Request unsuccessful: ");
    let n = errors.len();
    for i in 0..n
        invariant
            n == errors@.len(),
            msg@ == "Request unsuccessful: "@ + error_text(errors@.take(i as int)),
    {
        msg.append(errors[i].code.as_str());
        msg.append(" ");
        msg.append(errors[i].message.as_str());
        msg.append("; ");
        proof {
            assert(errors@.take(i + 1).drop_last() =~= errors@.take(i as int));
        }
    }
    proof {
        assert(errors@.take(n as int) =~= errors@);
    }
    Err(Error::Response { message: msg })
}

/// Whether a further page must be fetched: the reported total exceeds
/// what `page` pages of `per_page` items cover.
pub fn more_pages(count: usize, page: usize, per_page: usize) -> (r: bool)
    ensures
        r == (count > page * per_page),
{
    match page.checked_mul(per_page) {
        Some(p) => count > p,
        None => false,
    }
}

/// A single write operation against the provider.
pub enum WriteOp {
    Delete(DNSRecord),
    Update(DNSRecord),
    Create(DNSRecord),
}

/// The view of a write operation.
pub enum WriteOpV {
    Delete(DNSRecordV),
    Update(DNSRecordV),
    Create(DNSRecordV),
}

impl View for WriteOp {
    type V = WriteOpV;

    open spec fn view(&self) -> WriteOpV {
        match self {
            WriteOp::Delete(r) => WriteOpV::Delete(r@),
            WriteOp::Update(r) => WriteOpV::Update(r@),
            WriteOp::Create(r) => WriteOpV::Create(r@),
        }
    }
}

/// The counts a dry run reports.
pub struct ChangeCounts {
    pub create: usize,
    pub update: usize,
    pub delete: usize,
}

/// The outcome of planning one frontend's sync pass.
pub enum WritePlan {
    /// No changes detected; nothing is to be issued.
    NoChanges,
    /// Dry run: the counts a live run would apply; no write is planned.
    DryRun(ChangeCounts),
    /// Live run: the write operations, deletes first, then updates, then
    /// creates.
    Apply(Vec<WriteOp>),
}

/// `x` with its comment replaced by the stamp of instance `id`.
pub open spec fn stamp_v(x: DNSRecordV, id: Seq<char>) -> DNSRecordV {
    DNSRecordV {
        kind: x.kind,
        name: x.name,
        content: x.content,
        comment: Option::Some(stamped_comment(id)),
        ttl: x.ttl,
        id: x.id,
    }
}

/// The records of `s` whose instance marker names instance `inst`, in
/// order.
pub open spec fn keep_scoped(s: Seq<DNSRecordV>, inst: Seq<char>) -> Seq<DNSRecordV>
    decreases s.len(),
{
    if s.len() == 0 {
        Seq::empty()
    } else {
        let rest = keep_scoped(s.drop_last(), inst);
        if instance_id_of(s.last()) == Option::Some(inst) {
            rest.push(s.last())
        } else {
            rest
        }
    }
}

/// The deletions a pass issues: the diff's deletions scoped to records
/// whose instance marker names this instance.
pub open spec fn scoped_deletes(cv: Seq<DNSRecordV>, av: Seq<RecordV>, inst: Seq<char>) -> Seq<
    DNSRecordV,
> {
    keep_scoped(crate::comparison::diff_delete::<DNSRecord>(cv, av), inst)
}

/// Delete operations for each record of `s`, in order.
pub open spec fn delete_ops(s: Seq<DNSRecordV>) -> Seq<WriteOpV>
    decreases s.len(),
{
    if s.len() == 0 {
        Seq::empty()
    } else {
        delete_ops(s.drop_last()).push(WriteOpV::Delete(s.last()))
    }
}

/// Update operations for each record of `s`, re-stamped with instance
/// `inst`, in order.
pub open spec fn update_ops(s: Seq<DNSRecordV>, inst: Seq<char>) -> Seq<WriteOpV>
    decreases s.len(),
{
    if s.len() == 0 {
        Seq::empty()
    } else {
        update_ops(s.drop_last(), inst).push(WriteOpV::Update(stamp_v(s.last(), inst)))
    }
}

/// Create operations for each record of `s`, re-stamped with instance
/// `inst`, in order.
pub open spec fn create_ops(s: Seq<DNSRecordV>, inst: Seq<char>) -> Seq<WriteOpV>
    decreases s.len(),
{
    if s.len() == 0 {
        Seq::empty()
    } else {
        create_ops(s.drop_last(), inst).push(WriteOpV::Create(stamp_v(s.last(), inst)))
    }
}

/// The write operations of a live pass, in apply order: the scoped
/// deletions first, then the updates and creates re-stamped with this
/// instance.
pub open spec fn planned_ops(cv: Seq<DNSRecordV>, av: Seq<RecordV>, inst: Seq<char>) -> Seq<
    WriteOpV,
> {
    delete_ops(scoped_deletes(cv, av, inst)) + update_ops(
        crate::comparison::diff_update::<DNSRecord>(cv, av),
        inst,
    ) + create_ops(crate::comparison::diff_create::<DNSRecord>(cv, av), inst)
}

/// `delete_ops` yields one operation per record.
proof fn lemma_delete_ops_len(s: Seq<DNSRecordV>)
    ensures
        delete_ops(s).len() == s.len(),
    decreases s.len(),
{
    if s.len() > 0 {
        lemma_delete_ops_len(s.drop_last());
    }
}

/// `update_ops` yields one operation per record.
proof fn lemma_update_ops_len(s: Seq<DNSRecordV>, inst: Seq<char>)
    ensures
        update_ops(s, inst).len() == s.len(),
    decreases s.len(),
{
    if s.len() > 0 {
        lemma_update_ops_len(s.drop_last(), inst);
    }
}

/// `create_ops` yields one operation per record.
proof fn lemma_create_ops_len(s: Seq<DNSRecordV>, inst: Seq<char>)
    ensures
        create_ops(s, inst).len() == s.len(),
    decreases s.len(),
{
    if s.len() > 0 {
        lemma_create_ops_len(s.drop_last(), inst);
    }
}

/// A record re-stamped for instance `inst` is managed and scoped to it.
proof fn lemma_stamp_owned(v: DNSRecordV, inst: Seq<char>)
    ensures
        <DNSRecord as Manage>::managed_v(stamp_v(v, inst)),
        instance_id_of(stamp_v(v, inst)) == Option::Some(trim_spec(inst)),
{
    lemma_stamped_is_managed(inst);
    lemma_stamp_scopes_to_instance(stamp_v(v, inst), inst);
}

/// Every update a live plan issues is stamped with this instance: the
/// written record is managed and scoped to the running instance.
pub proof fn lemma_update_ops_owned(s: Seq<DNSRecordV>, inst: Seq<char>)
    ensures
        forall|k: int|
            0 <= k < update_ops(s, inst).len() ==> match #[trigger] update_ops(s, inst)[k] {
                WriteOpV::Update(v) => <DNSRecord as Manage>::managed_v(v) && instance_id_of(v)
                    == Option::Some(trim_spec(inst)),
                _ => false,
            },
    decreases s.len(),
{
    if s.len() > 0 {
        lemma_update_ops_owned(s.drop_last(), inst);
        lemma_stamp_owned(s.last(), inst);
        let rest = update_ops(s.drop_last(), inst);
        let d = update_ops(s, inst);
        assert forall|k: int| #![trigger d[k]] 0 <= k < d.len() implies match d[k] {
            WriteOpV::Update(v) => <DNSRecord as Manage>::managed_v(v) && instance_id_of(v)
                == Option::Some(trim_spec(inst)),
            _ => false,
        } by {
            if k < rest.len() {
                assert(d[k] == rest[k]);
            } else {
                assert(d[k] == WriteOpV::Update(stamp_v(s.last(), inst)));
            }
        }
    }
}

/// Every create a live plan issues is stamped with this instance: the
/// written record is managed and scoped to the running instance.
pub proof fn lemma_create_ops_owned(s: Seq<DNSRecordV>, inst: Seq<char>)
    ensures
        forall|k: int|
            0 <= k < create_ops(s, inst).len() ==> match #[trigger] create_ops(s, inst)[k] {
                WriteOpV::Create(v) => <DNSRecord as Manage>::managed_v(v) && instance_id_of(v)
                    == Option::Some(trim_spec(inst)),
                _ => false,
            },
    decreases s.len(),
{
    if s.len() > 0 {
        lemma_create_ops_owned(s.drop_last(), inst);
        lemma_stamp_owned(s.last(), inst);
        let rest = create_ops(s.drop_last(), inst);
        let d = create_ops(s, inst);
        assert forall|k: int| #![trigger d[k]] 0 <= k < d.len() implies match d[k] {
            WriteOpV::Create(v) => <DNSRecord as Manage>::managed_v(v) && instance_id_of(v)
                == Option::Some(trim_spec(inst)),
            _ => false,
        } by {
            if k < rest.len() {
                assert(d[k] == rest[k]);
            } else {
                assert(d[k] == WriteOpV::Create(stamp_v(s.last(), inst)));
            }
        }
    }
}

/// A dry run plans no write operation, and the counts it reports are
/// exactly the lengths of the write plan a live run would issue.
pub proof fn lemma_dry_run_counts(cv: Seq<DNSRecordV>, av: Seq<RecordV>, inst: Seq<char>)
    ensures
        planned_ops(cv, av, inst).len() == scoped_deletes(cv, av, inst).len()
            + crate::comparison::diff_update::<DNSRecord>(cv, av).len()
            + crate::comparison::diff_create::<DNSRecord>(cv, av).len(),
{
    lemma_delete_ops_len(scoped_deletes(cv, av, inst));
    lemma_update_ops_len(crate::comparison::diff_update::<DNSRecord>(cv, av), inst);
    lemma_create_ops_len(crate::comparison::diff_create::<DNSRecord>(cv, av), inst);
}

/// Plans one frontend sync pass from the provider's current records and
/// the authoritative records routed to it.
///
/// The change set is the verified diff, with deletions additionally
/// scoped to this instance. When it is empty the plan is `NoChanges`; on
/// a dry run the plan only reports the counts a live run would apply; on
/// a live run the plan lists every write, deletes first, then updates,
/// then creates, each update and create re-stamped with this instance.
pub fn plan_changes(
    current: Vec<DNSRecord>,
    authority: Vec<Record>,
    instance_id: &str,
    dry_run: bool,
) -> (p: WritePlan)
    ensures
        ({
            let cv = views(current@);
            let av = views(authority@);
            let dels = scoped_deletes(cv, av, instance_id@);
            let ups = crate::comparison::diff_update::<DNSRecord>(cv, av);
            let crs = crate::comparison::diff_create::<DNSRecord>(cv, av);
            match p {
                WritePlan::NoChanges => dels.len() == 0 && ups.len() == 0 && crs.len() == 0,
                WritePlan::DryRun(c) => dry_run && dels.len() + ups.len() + crs.len() > 0
                    && c.create == crs.len() && c.update == ups.len() && c.delete == dels.len(),
                WritePlan::Apply(ops) => !dry_run && dels.len() + ups.len() + crs.len() > 0
                    && views(ops@) == planned_ops(cv, av, instance_id@),
            }
        }),
{
    let ghost cv = views(current@);
    let ghost av = views(authority@);
    let d = crate::comparison::diff_records::<DNSRecord>(current, authority);

    let mut deletions: Vec<DNSRecord> = Vec::new();
    let ghost dv = views(d.delete@);
    let nd = d.delete.len();
    for i in 0..nd
        invariant
            nd == d.delete@.len(),
            dv == views(d.delete@),
            views(deletions@) == keep_scoped(dv.take(i as int), instance_id@),
    {
        let ghost old_dels = views(deletions@);
        let keep = match d.delete[i].get_instance_id() {
            Some(id) => str_eq(id.as_str(), instance_id),
            None => false,
        };
        proof {
            assert(keep == (instance_id_of(dv[i as int]) == Option::Some(instance_id@)));
            assert(dv.take(i + 1).drop_last() =~= dv.take(i as int));
            assert(dv.take(i + 1).last() == dv[i as int]);
        }
        if keep {
            deletions.push(d.delete[i].duplicate());
            proof {
                assert(views(deletions@) =~= old_dels.push(dv[i as int]));
            }
        }
    }
    proof {
        assert(dv.take(nd as int) =~= dv);
        assert(views(deletions@) == scoped_deletes(cv, av, instance_id@));
    }

    if deletions.len() == 0 && d.update.len() == 0 && d.create.len() == 0 {
        return WritePlan::NoChanges;
    }

    if dry_run {
        return WritePlan::DryRun(
            ChangeCounts {
                create: d.create.len(),
                update: d.update.len(),
                delete: deletions.len(),
            },
        );
    }

    let ghost dels_v = scoped_deletes(cv, av, instance_id@);
    let ghost ups_v = crate::comparison::diff_update::<DNSRecord>(cv, av);
    let ghost crs_v = crate::comparison::diff_create::<DNSRecord>(cv, av);

    let mut ops: Vec<WriteOp> = Vec::new();
    let ndel = deletions.len();
    for i in 0..ndel
        invariant
            ndel == deletions@.len(),
            dels_v == views(deletions@),
            views(ops@) == delete_ops(dels_v.take(i as int)),
    {
        let ghost old_ops = views(ops@);
        ops.push(WriteOp::Delete(deletions[i].duplicate()));
        proof {
            assert(dels_v.take(i + 1).drop_last() =~= dels_v.take(i as int));
            assert(dels_v.take(i + 1).last() == dels_v[i as int]);
            assert(views(ops@) =~= old_ops.push(WriteOpV::Delete(dels_v[i as int])));
        }
    }
    proof {
        assert(dels_v.take(ndel as int) =~= dels_v);
    }

    let nup = d.update.len();
    for i in 0..nup
        invariant
            nup == d.update@.len(),
            ups_v == views(d.update@),
            dels_v == views(deletions@),
            views(ops@) == delete_ops(dels_v) + update_ops(ups_v.take(i as int), instance_id@),
    {
        let ghost old_ops = views(ops@);
        let mut u = d.update[i].duplicate();
        u.set_instance_id(instance_id);
        ops.push(WriteOp::Update(u));
        proof {
            assert(u@ == stamp_v(ups_v[i as int], instance_id@));
            assert(ups_v.take(i + 1).drop_last() =~= ups_v.take(i as int));
            assert(ups_v.take(i + 1).last() == ups_v[i as int]);
            assert(views(ops@) =~= old_ops.push(
                WriteOpV::Update(stamp_v(ups_v[i as int], instance_id@)),
            ));
        }
    }
    proof {
        assert(ups_v.take(nup as int) =~= ups_v);
    }

    let ncr = d.create.len();
    for i in 0..ncr
        invariant
            ncr == d.create@.len(),
            crs_v == views(d.create@),
            ups_v == views(d.update@),
            dels_v == views(deletions@),
            views(ops@) == delete_ops(dels_v) + update_ops(ups_v, instance_id@) + create_ops(
                crs_v.take(i as int),
                instance_id@,
            ),
    {
        let ghost old_ops = views(ops@);
        let mut cnew = d.create[i].duplicate();
        cnew.set_instance_id(instance_id);
        ops.push(WriteOp::Create(cnew));
        proof {
            assert(cnew@ == stamp_v(crs_v[i as int], instance_id@));
            assert(crs_v.take(i + 1).drop_last() =~= crs_v.take(i as int));
            assert(crs_v.take(i + 1).last() == crs_v[i as int]);
            assert(views(ops@) =~= old_ops.push(
                WriteOpV::Create(stamp_v(crs_v[i as int], instance_id@)),
            ));
        }
    }
    proof {
        assert(crs_v.take(ncr as int) =~= crs_v);
        assert(views(ops@) == planned_ops(cv, av, instance_id@));
    }

    WritePlan::Apply(ops)
}

/// The provider record type satisfies the capability contract of the diff
/// engine.
pub proof fn lemma_dnsrecord_laws()
    ensures
        crate::comparison::diff_laws::<DNSRecord>(),
{
    assert forall|a: RecordV|
        <DNSRecord as Manage>::managed_v(#[trigger] <DNSRecord as Diffable>::conv_v(a)) by {
        assert(occurs_at(watermark(), watermark(), 0)) by {
            assert(watermark().subrange(0, watermark().len() as int) =~= watermark());
        }
    }
}

} // verus!
