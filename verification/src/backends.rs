//! The record-producing logic of the backends: turning machine listings
//! and file entries into authoritative records. Reading the external
//! sources happens outside; everything from the read values to the
//! records is verified.

use vstd::prelude::*;
use vstd::string::{StrSliceExecFns, StringExecFns};
use crate::errors::Error;
use crate::net::{
    any_contains, any_contains_spec, all_well_formed, host_of, ip_bits_of, parse_host, parse_ip,
    CidrBlock,
};
use crate::records::{views, Record, RecordV};
use crate::text::{split_char, split_spec, trim_spec, trim_str, upper_seq, to_ascii_upper};

verus! {

/// The record kind of an address family: `A` for IPv4, `AAAA` for IPv6.
pub open spec fn kind_for(v6: bool) -> Seq<char> {
    if v6 {
        "AAAA"@
    } else {
        "A"@
    }
}

/// Index of the first entry of `ips` that is not a valid IP address,
/// or -1 when all are valid.
pub open spec fn first_invalid(ips: Seq<Seq<char>>) -> int
    decreases ips.len(),
{
    if ips.len() == 0 {
        -1
    } else if ip_bits_of(ips[0]) is None {
        0
    } else {
        let m = first_invalid(ips.skip(1));
        if m == -1 {
            -1
        } else {
            m + 1
        }
    }
}

/// A witness to the first invalid entry determines `first_invalid`.
proof fn lemma_first_invalid_is(ips: Seq<Seq<char>>, i: int)
    requires
        0 <= i < ips.len(),
        ip_bits_of(ips[i]) is None,
        forall|j: int| 0 <= j < i ==> ip_bits_of(#[trigger] ips[j]) is Some,
    ensures
        first_invalid(ips) == i,
    decreases ips.len(),
{
    if i == 0 {
    } else {
        assert(forall|j: int| 0 <= j < i - 1 ==> ips.skip(1)[j] == ips[j + 1]);
        lemma_first_invalid_is(ips.skip(1), i - 1);
    }
}

/// When every entry is a valid IP address, `first_invalid` is -1.
proof fn lemma_first_invalid_none(ips: Seq<Seq<char>>)
    requires
        forall|j: int| 0 <= j < ips.len() ==> ip_bits_of(#[trigger] ips[j]) is Some,
    ensures
        first_invalid(ips) == -1,
    decreases ips.len(),
{
    if ips.len() > 0 {
        assert(forall|j: int| 0 <= j < ips.len() - 1 ==> ips.skip(1)[j] == ips[j + 1]);
        lemma_first_invalid_none(ips.skip(1));
    }
}

/// `first_invalid` points at the first invalid entry when there is one.
pub proof fn lemma_first_invalid(ips: Seq<Seq<char>>)
    ensures
        first_invalid(ips) == -1 ==> forall|j: int|
            0 <= j < ips.len() ==> ip_bits_of(#[trigger] ips[j]) is Some,
        first_invalid(ips) != -1 ==> 0 <= first_invalid(ips) < ips.len() && ip_bits_of(
            ips[first_invalid(ips)],
        ) is None && forall|j: int|
            0 <= j < first_invalid(ips) ==> ip_bits_of(#[trigger] ips[j]) is Some,
    decreases ips.len(),
{
    if ips.len() == 0 {
    } else if ip_bits_of(ips[0]) is None {
    } else {
        lemma_first_invalid(ips.skip(1));
        assert(forall|j: int| 1 <= j < ips.len() ==> ips[j] == ips.skip(1)[j - 1]);
    }
}

/// The backend error reported for the first IP address that fails to
/// parse.
pub open spec fn bad_ip_error(e: Error, backend: Seq<char>, ip: Seq<char>) -> bool {
    match e {
        Error::Backend { backend: b, message } => b@ == backend && message@ == "Failed to parse ip "@
            + ip,
        _ => false,
    }
}

/// The record a kept address becomes: named `name`, typed by the address
/// family, carrying the address text.
pub open spec fn address_record(rec: RecordV, ip: Seq<char>, name: Seq<char>, source: Seq<
    char,
>) -> bool {
    match ip_bits_of(ip) {
        Option::Some(p) => rec == (RecordV { name: name, kind: kind_for(p.0), content: ip, source:
            source }),
        Option::None => false,
    }
}

/// The machine name of the headscale backend: the machine's given name,
/// optionally the owning user, then the configured domain.
pub open spec fn headscale_name(
    given: Seq<char>,
    user: Seq<char>,
    domain: Seq<char>,
    with_user: bool,
) -> Seq<char> {
    if with_user {
        given + "."@ + user + "."@ + domain
    } else {
        given + "."@ + domain
    }
}

/// Builds one record per address of a headscale machine, named after the
/// machine (and, when configured, its user) under the backend's domain.
/// The first invalid address fails the conversion.
pub fn headscale_machine_records(
    given_name: &str,
    user_name: &str,
    ip_addresses: &Vec<String>,
    domain: &str,
    add_user_suffix: bool,
) -> (r: Result<Vec<Record>, Error>)
    ensures
        ({
            let ips = views(ip_addresses@);
            let name = headscale_name(given_name@, user_name@, domain@, add_user_suffix);
            match r {
                Ok(recs) => first_invalid(ips) == -1 && views(recs@).len() == ips.len() && forall|
                    k: int,
                |
                    0 <= k < ips.len() ==> address_record(
                        #[trigger] views(recs@)[k],
                        ips[k],
                        name,
                        "Headscale"@,
                    ),
                Err(e) => first_invalid(ips) != -1 && bad_ip_error(
                    e,
                    "Headscale"@,
                    ips[first_invalid(ips)],
                ),
            }
        }),
{
    let ghost ips = views(ip_addresses@);
    let mut name = String::from_str(given_name);
    name.append(".");
    if add_user_suffix {
        name.append(user_name);
        name.append(".");
    }
    name.append(domain);
    proof {
        assert(name@ == headscale_name(given_name@, user_name@, domain@, add_user_suffix));
    }

    let n = ip_addresses.len();
    let mut records: Vec<Record> = Vec::new();
    for k in 0..n
        invariant
            n == ip_addresses@.len(),
            ips == views(ip_addresses@),
            name@ == headscale_name(given_name@, user_name@, domain@, add_user_suffix),
            records@.len() == k,
            forall|t: int| 0 <= t < k ==> ip_bits_of(#[trigger] ips[t]) is Some,
            forall|t: int|
                0 <= t < k ==> address_record(
                    #[trigger] views(records@)[t],
                    ips[t],
                    name@,
                    "Headscale"@,
                ),
    {
        let ip = &ip_addresses[k];
        match parse_ip(ip.as_str()) {
            Some(p) => {
                let kind = if p.0 {
                    String::from_str(crate::records::record_kind_aaaa())
                } else {
                    String::from_str(crate::records::record_kind_a())
                };
                let ghost old_records = views(records@);
                let rec = Record {
                    name: name.clone(),
                    kind: kind,
                    content: ip.clone(),
                    source: String::from_str("Headscale"),
                };
                let ghost recv = rec@;
                records.push(rec);
                proof {
                    assert(ips[k as int] == ip_addresses@[k as int]@);
                    assert(views(records@) =~= old_records.push(recv));
                    assert(forall|t: int|
                        0 <= t < k ==> #[trigger] views(records@)[t] == old_records[t]);
                    assert(address_record(recv, ips[k as int], name@, "Headscale"@));
                }
            },
            None => {
                proof {
                    assert(ips[k as int] == ip_addresses@[k as int]@);
                    lemma_first_invalid_is(ips, k as int);
                    assert(first_invalid(ips) == k as int);
                }
                let mut msg = String::from_str("Failed to parse ip ");
                msg.append(ip.as_str());
                proof {
                    assert(msg@ == "Failed to parse ip "@ + ips[k as int]);
                }
                return Err(Error::Backend {
                    backend: String::from_str("Headscale"),
                    message: msg,
                });
            },
        }
    }
    proof {
        lemma_first_invalid_none(ips);
    }
    Ok(records)
}

/// Whether the address is kept by the filters: inside some included
/// block when any are configured, and inside no excluded block.
pub open spec fn keeps_ip(ip: Seq<char>, inc: Seq<CidrBlock>, exc: Seq<CidrBlock>) -> bool {
    match ip_bits_of(ip) {
        Option::Some(p) => (inc.len() == 0 || any_contains_spec(inc, p.0, p.1))
            && !any_contains_spec(exc, p.0, p.1),
        Option::None => false,
    }
}

/// The records of the kept addresses, in order.
pub open spec fn selected_records(
    ips: Seq<Seq<char>>,
    inc: Seq<CidrBlock>,
    exc: Seq<CidrBlock>,
    name: Seq<char>,
    source: Seq<char>,
) -> Seq<RecordV>
    decreases ips.len(),
{
    if ips.len() == 0 {
        Seq::empty()
    } else {
        let rest = selected_records(ips.drop_last(), inc, exc, name, source);
        if keeps_ip(ips.last(), inc, exc) {
            rest.push(
                match ip_bits_of(ips.last()) {
                    Option::Some(p) => RecordV {
                        name: name,
                        kind: kind_for(p.0),
                        content: ips.last(),
                        source: source,
                    },
                    Option::None => RecordV {
                        name: name,
                        kind: Seq::empty(),
                        content: ips.last(),
                        source: source,
                    },
                },
            )
        } else {
            rest
        }
    }
}

/// Builds the records of one machine of the machinectl backend: its
/// newline-separated addresses are parsed (the first invalid one fails
/// the conversion), filtered by the included and excluded blocks, and
/// named `machine.domain`.
pub fn machinectl_machine_records(
    machine_name: &str,
    addresses: &str,
    domain: &str,
    included: &Vec<CidrBlock>,
    excluded: &Vec<CidrBlock>,
) -> (r: Result<Vec<Record>, Error>)
    requires
        all_well_formed(included@),
        all_well_formed(excluded@),
    ensures
        ({
            let ips = split_spec(addresses@, '\n');
            let name = machine_name@ + "."@ + domain@;
            match r {
                Ok(recs) => first_invalid(ips) == -1 && views(recs@) == selected_records(
                    ips,
                    included@,
                    excluded@,
                    name,
                    "Machinectl"@,
                ),
                Err(e) => first_invalid(ips) != -1 && bad_ip_error(
                    e,
                    "Machinectl"@,
                    ips[first_invalid(ips)],
                ),
            }
        }),
{
    let mut name = String::from_str(machine_name);
    name.append(".");
    name.append(domain);

    let pieces = split_char(addresses, '\n');
    let ghost ips = split_spec(addresses@, '\n');
    proof {
        assert(views(pieces@) == ips);
    }

    let n = pieces.len();
    let mut records: Vec<Record> = Vec::new();
    for k in 0..n
        invariant
            n == pieces@.len(),
            ips == views(pieces@),
            ips == split_spec(addresses@, '\n'),
            all_well_formed(included@),
            all_well_formed(excluded@),
            name@ == machine_name@ + "."@ + domain@,
            forall|t: int| 0 <= t < k ==> ip_bits_of(#[trigger] ips[t]) is Some,
            views(records@) == selected_records(
                ips.take(k as int),
                included@,
                excluded@,
                name@,
                "Machinectl"@,
            ),
    {
        proof {
            assert(ips.take(k + 1).drop_last() =~= ips.take(k as int));
            assert(ips.take(k + 1).last() == ips[k as int]);
        }
        let ip = &pieces[k];
        match parse_ip(ip.as_str()) {
            Some(p) => {
                let keep = (included.len() == 0 || any_contains(included, p.0, p.1))
                    && !any_contains(excluded, p.0, p.1);
                if keep {
                    let kind = if p.0 {
                        String::from_str(crate::records::record_kind_aaaa())
                    } else {
                        String::from_str(crate::records::record_kind_a())
                    };
                    let ghost old_records = views(records@);
                    records.push(
                        Record {
                            name: name.clone(),
                            kind: kind,
                            content: ip.clone(),
                            source: String::from_str("Machinectl"),
                        },
                    );
                    proof {
                        assert(views(records@) =~= old_records.push(
                            match ip_bits_of(ips[k as int]) {
                                Option::Some(q) => RecordV {
                                    name: name@,
                                    kind: kind_for(q.0),
                                    content: ips[k as int],
                                    source: "Machinectl"@,
                                },
                                Option::None => RecordV {
                                    name: name@,
                                    kind: Seq::empty(),
                                    content: ips[k as int],
                                    source: "Machinectl"@,
                                },
                            },
                        ));
                    }
                }
            },
            None => {
                proof {
                    assert(ips[k as int] == pieces@[k as int]@);
                    lemma_first_invalid_is(ips, k as int);
                    assert(first_invalid(ips) == k as int);
                }
                let mut msg = String::from_str("Failed to parse ip ");
                msg.append(ip.as_str());
                proof {
                    assert(msg@ == "Failed to parse ip "@ + ips[k as int]);
                }
                return Err(Error::Backend {
                    backend: String::from_str("Machinectl"),
                    message: msg,
                });
            },
        }
    }
    proof {
        lemma_first_invalid_none(ips);
        assert(ips.take(n as int) =~= ips);
    }
    Ok(records)
}

/// Builds one authoritative record from the parts a JSON source file
/// holds: the name must be a valid host (it is normalized), the kind is
/// upper-cased (ASCII letters only — record types are plain ASCII), the
/// content is taken as is.
pub fn jsonfile_record(name: &str, kind: &str, content: &str) -> (r: Result<Record, Error>)
    ensures
        match r {
            Ok(rec) => match host_of(name@) {
                Option::Some(h) => rec@ == (RecordV {
                    name: h,
                    kind: upper_seq(kind@),
                    content: content@,
                    source: "JSONFile"@,
                }),
                Option::None => false,
            },
            Err(e) => host_of(name@) is None && match e {
                Error::Backend { backend, message } => backend@ == "JSONFile"@ && message@
                    == "Failed to parse record name "@ + name@,
                _ => false,
            },
        },
{
    match parse_host(name) {
        Some(h) => Ok(
            Record {
                name: h,
                kind: to_ascii_upper(kind),
                content: String::from_str(content),
                source: String::from_str("JSONFile"),
            },
        ),
        None => {
            let mut msg = String::from_str("Failed to parse record name ");
            msg.append(name);
            Err(Error::Backend { backend: String::from_str("JSONFile"), message: msg })
        },
    }
}

/// Parses a comma-separated list of CIDR blocks: blank entries are
/// skipped, any malformed entry is a fatal configuration error naming
/// the entry.
pub open spec fn cidr_entry_kept(entry: Seq<char>) -> bool {
    trim_spec(entry).len() > 0
}

/// The parsed blocks of the kept entries, in order; meaningful when all
/// kept entries parse.
pub open spec fn parsed_cidrs(entries: Seq<Seq<char>>) -> Seq<CidrBlock>
    decreases entries.len(),
{
    if entries.len() == 0 {
        Seq::empty()
    } else {
        let rest = parsed_cidrs(entries.drop_last());
        if cidr_entry_kept(entries.last()) {
            match crate::net::cidr_of(trim_spec(entries.last())) {
                Option::Some(t) => rest.push(CidrBlock { v6: t.0, bits: t.1, len: t.2 }),
                Option::None => rest,
            }
        } else {
            rest
        }
    }
}

/// Index of the first kept entry that is not a valid CIDR, or -1.
pub open spec fn first_bad_cidr(entries: Seq<Seq<char>>) -> int
    decreases entries.len(),
{
    if entries.len() == 0 {
        -1
    } else if cidr_entry_kept(entries[0]) && crate::net::cidr_of(trim_spec(entries[0])) is None {
        0
    } else {
        let m = first_bad_cidr(entries.skip(1));
        if m == -1 {
            -1
        } else {
            m + 1
        }
    }
}

/// A witness to the first bad entry determines `first_bad_cidr`.
proof fn lemma_first_bad_cidr_is(entries: Seq<Seq<char>>, i: int)
    requires
        0 <= i < entries.len(),
        cidr_entry_kept(entries[i]) && crate::net::cidr_of(trim_spec(entries[i])) is None,
        forall|j: int|
            0 <= j < i ==> !(cidr_entry_kept(#[trigger] entries[j]) && crate::net::cidr_of(
                trim_spec(entries[j]),
            ) is None),
    ensures
        first_bad_cidr(entries) == i,
    decreases entries.len(),
{
    if i == 0 {
    } else {
        assert(forall|j: int| 0 <= j < i - 1 ==> entries.skip(1)[j] == entries[j + 1]);
        lemma_first_bad_cidr_is(entries.skip(1), i - 1);
    }
}

/// When every kept entry parses, `first_bad_cidr` is -1.
proof fn lemma_first_bad_cidr_none(entries: Seq<Seq<char>>)
    requires
        forall|j: int|
            0 <= j < entries.len() ==> !(cidr_entry_kept(#[trigger] entries[j])
                && crate::net::cidr_of(trim_spec(entries[j])) is None),
    ensures
        first_bad_cidr(entries) == -1,
    decreases entries.len(),
{
    if entries.len() > 0 {
        assert(forall|j: int| 0 <= j < entries.len() - 1 ==> entries.skip(1)[j] == entries[j + 1]);
        lemma_first_bad_cidr_none(entries.skip(1));
    }
}

/// Parses the comma-separated CIDR filter of the machinectl backend.
/// All returned blocks are well-formed; a malformed entry is a
/// configuration error naming the trimmed entry.
pub fn convert_cidrs(cidrs: &str) -> (r: Result<Vec<CidrBlock>, Error>)
    ensures
        ({
            let entries = split_spec(cidrs@, ',');
            match r {
                Ok(blocks) => first_bad_cidr(entries) == -1 && blocks@ == parsed_cidrs(entries)
                    && all_well_formed(blocks@),
                Err(e) => first_bad_cidr(entries) != -1 && match e {
                    Error::Config { message, prefix } => prefix@ == "machinectl"@ && message@
                        == "Invalid CIDR "@ + trim_spec(entries[first_bad_cidr(entries)]),
                    _ => false,
                },
            }
        }),
{
    let pieces = split_char(cidrs, ',');
    let ghost entries = split_spec(cidrs@, ',');
    proof {
        assert(views(pieces@) == entries);
    }
    let n = pieces.len();
    let mut blocks: Vec<CidrBlock> = Vec::new();
    for k in 0..n
        invariant
            n == pieces@.len(),
            entries == views(pieces@),
            entries == split_spec(cidrs@, ','),
            forall|t: int|
                0 <= t < k ==> !(cidr_entry_kept(#[trigger] entries[t]) && crate::net::cidr_of(
                    trim_spec(entries[t]),
                ) is None),
            blocks@ == parsed_cidrs(entries.take(k as int)),
            all_well_formed(blocks@),
    {
        proof {
            assert(entries.take(k + 1).drop_last() =~= entries.take(k as int));
            assert(entries.take(k + 1).last() == entries[k as int]);
        }
        let entry = trim_str(pieces[k].as_str());
        proof {
            assert(entries[k as int] == pieces@[k as int]@);
            assert(entry@ == trim_spec(entries[k as int]));
        }
        if entry.as_str().unicode_len() > 0 {
            let ghost old_blocks = blocks@;
            match CidrBlock::parse(entry.as_str()) {
                Some(b) => {
                    blocks.push(b);
                    proof {
                        assert(blocks@ =~= old_blocks.push(b));
                        assert(forall|t: int|
                            0 <= t < old_blocks.len() ==> blocks@[t] == old_blocks[t]);
                    }
                },
                None => {
                    proof {
                        lemma_first_bad_cidr_is(entries, k as int);
                        assert(first_bad_cidr(entries) == k as int);
                    }
                    let mut msg = String::from_str("Invalid CIDR ");
                    msg.append(entry.as_str());
                    return Err(Error::Config {
                        message: msg,
                        prefix: String::from_str("machinectl"),
                    });
                },
            }
        }
    }
    proof {
        lemma_first_bad_cidr_none(entries);
        assert(entries.take(n as int) =~= entries);
    }
    Ok(blocks)
}

} // verus!
