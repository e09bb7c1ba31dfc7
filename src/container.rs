//! The spreadsheet container's descriptor parts: finding the first sheet's
//! part through the workbook and its relationships, and reading the sheet's
//! merged-cell declarations.

use quick_xml::events::Event;
use quick_xml::Reader;
use vstd::prelude::*;
use crate::cellref::{MergeRange, parse_range_ref, range_ref_spec};
use crate::chunk::SplitError;

verus! {

/// An attribute of an element: its qualified name, and its unescaped value
/// (`None` where the value could not be decoded).
pub struct XmlAttr {
    pub key: String,
    pub value: Option<String>,
}

/// A start or empty element: its qualified name and its attributes, in
/// document order.
pub struct XmlTag {
    pub name: String,
    pub attrs: Vec<XmlAttr>,
}

pub open spec fn opt_view(o: Option<String>) -> Option<Seq<char>> {
    match o {
        Some(s) => Some(s@),
        None => None,
    }
}

impl View for XmlAttr {
    type V = (Seq<char>, Option<Seq<char>>);

    open spec fn view(&self) -> (Seq<char>, Option<Seq<char>>) {
        (self.key@, opt_view(self.value))
    }
}

impl View for XmlTag {
    type V = (Seq<char>, Seq<(Seq<char>, Option<Seq<char>>)>);

    open spec fn view(&self) -> (Seq<char>, Seq<(Seq<char>, Option<Seq<char>>)>) {
        (self.name@, self.attrs@.map_values(|a: XmlAttr| a@))
    }
}

/// The start and empty elements of an XML text, in document order, up to
/// the end of the text or the first syntax error; and whether the text was
/// read to its end without a syntax error.
pub uninterp spec fn xml_tags_of(xml: Seq<char>) -> (
    Seq<(Seq<char>, Seq<(Seq<char>, Option<Seq<char>>)>)>,
    bool,
);

/// Relies on quick_xml's `Reader::read_event`, `BytesStart::attributes`
/// and `Attribute::decode_and_unescape_value`: the elements read, and
/// whether reading stopped at a syntax error, depend on the text alone.
#[verifier::external_body]
fn xml_tags(xml: &str) -> (r: (Vec<XmlTag>, bool))
    ensures
        r.0@.map_values(|t: XmlTag| t@) == xml_tags_of(xml@).0,
        r.1 == xml_tags_of(xml@).1,
{
    let (mut reader, mut tags) = (Reader::from_str(xml), Vec::new());
    loop {
        match reader.read_event() {
            Ok(Event::Eof) => return (tags, true),
            Ok(Event::Start(e)) | Ok(Event::Empty(e)) => {
                let attrs = e.attributes().flatten().map(|a| XmlAttr {
                    key: String::from_utf8_lossy(a.key.as_ref()).into_owned(),
                    value: a.decode_and_unescape_value(&reader).ok().map(|v| v.into_owned()),
                });
                tags.push(XmlTag { name: String::from_utf8_lossy(e.name().as_ref()).into(), attrs: attrs.collect() });
            },
            Ok(_) => {},
            Err(_) => return (tags, false),
        }
    }
}

pub open spec fn ends_with(s: Seq<char>, suffix: Seq<char>) -> bool {
    s.len() >= suffix.len() && s.subrange(s.len() - suffix.len(), s.len() as int) == suffix
}

/// The last values of the attributes whose keys end with `first_key` and
/// with `second_key` (a key ending with both counts as the first); `None`
/// where such a value could not be decoded.
pub open spec fn scan_attrs(
    attrs: Seq<(Seq<char>, Option<Seq<char>>)>,
    first_key: Seq<char>,
    second_key: Seq<char>,
) -> Option<(Option<Seq<char>>, Option<Seq<char>>)>
    decreases attrs.len(),
{
    if attrs.len() == 0 {
        Some((None, None))
    } else {
        match scan_attrs(attrs.drop_last(), first_key, second_key) {
            None => None,
            Some((a, b)) => {
                let (key, value) = attrs.last();
                if ends_with(key, first_key) {
                    match value {
                        None => None,
                        Some(v) => Some((Some(v), b)),
                    }
                } else if ends_with(key, second_key) {
                    match value {
                        None => None,
                        Some(v) => Some((a, Some(v))),
                    }
                } else {
                    Some((a, b))
                }
            },
        }
    }
}

/// What a lookup among elements finds.
pub enum Lookup {
    Found(Seq<char>),
    Malformed,
    NotFound,
}

/// The first element whose name ends with `tag_suffix` and whose
/// `first_key` attribute is `wanted` gives its `second_key` attribute;
/// an undecodable value of either attribute on a matching element before
/// it is a malformed container.
pub open spec fn lookup_spec(
    tags: Seq<(Seq<char>, Seq<(Seq<char>, Option<Seq<char>>)>)>,
    tag_suffix: Seq<char>,
    first_key: Seq<char>,
    second_key: Seq<char>,
    wanted: Seq<char>,
) -> Lookup
    decreases tags.len(),
{
    if tags.len() == 0 {
        Lookup::NotFound
    } else {
        let rest = lookup_spec(tags.drop_first(), tag_suffix, first_key, second_key, wanted);
        if !ends_with(tags[0].0, tag_suffix) {
            rest
        } else {
            match scan_attrs(tags[0].1, first_key, second_key) {
                None => Lookup::Malformed,
                Some((Some(a), Some(b))) => if a == wanted {
                    Lookup::Found(b)
                } else {
                    rest
                },
                _ => rest,
            }
        }
    }
}

fn str_eq(a: &str, b: &str) -> (r: bool)
    ensures
        r == (a@ == b@),
{
    let n = a.unicode_len();
    if n != b.unicode_len() {
        return false;
    }
    let mut i: usize = 0;
    while i < n
        invariant
            n == a@.len(),
            n == b@.len(),
            i <= n,
            a@.subrange(0, i as int) == b@.subrange(0, i as int),
        decreases n - i,
    {
        if a.get_char(i) != b.get_char(i) {
            assert(a@[i as int] != b@[i as int]);
            return false;
        }
        assert(a@.subrange(0, i + 1) =~= a@.subrange(0, i as int).push(a@[i as int]));
        assert(b@.subrange(0, i + 1) =~= b@.subrange(0, i as int).push(b@[i as int]));
        i = i + 1;
    }
    assert(a@.subrange(0, n as int) =~= a@);
    assert(b@.subrange(0, n as int) =~= b@);
    true
}

fn str_ends_with(s: &str, suffix: &str) -> (r: bool)
    ensures
        r == ends_with(s@, suffix@),
{
    let n = s.unicode_len();
    let m = suffix.unicode_len();
    if m > n {
        return false;
    }
    str_eq(s.substring_char(n - m, n), suffix)
}

proof fn lemma_scan_none_extends(
    attrs: Seq<(Seq<char>, Option<Seq<char>>)>,
    i: int,
    first_key: Seq<char>,
    second_key: Seq<char>,
)
    requires
        0 <= i <= attrs.len(),
        scan_attrs(attrs.subrange(0, i), first_key, second_key) is None,
    ensures
        scan_attrs(attrs, first_key, second_key) is None,
    decreases attrs.len() - i,
{
    if i < attrs.len() {
        assert(attrs.subrange(0, i + 1).drop_last() =~= attrs.subrange(0, i));
        lemma_scan_none_extends(attrs, i + 1, first_key, second_key);
    } else {
        assert(attrs.subrange(0, i) =~= attrs);
    }
}

fn scan_tag_attrs(attrs: &Vec<XmlAttr>, first_key: &str, second_key: &str) -> (r: Option<
    (Option<String>, Option<String>),
>)
    ensures
        match r {
            None => scan_attrs(attrs@.map_values(|a: XmlAttr| a@), first_key@, second_key@) is None,
            Some((a, b)) => scan_attrs(attrs@.map_values(|a: XmlAttr| a@), first_key@, second_key@)
                == Some((opt_view(a), opt_view(b))),
        },
{
    let ghost views = attrs@.map_values(|a: XmlAttr| a@);
    let mut first: Option<String> = None;
    let mut second: Option<String> = None;
    let mut i: usize = 0;
    assert(views.subrange(0, 0) =~= Seq::<(Seq<char>, Option<Seq<char>>)>::empty());
    while i < attrs.len()
        invariant
            i <= attrs@.len(),
            views == attrs@.map_values(|a: XmlAttr| a@),
            scan_attrs(views.subrange(0, i as int), first_key@, second_key@) == Some(
                (opt_view(first), opt_view(second)),
            ),
        decreases attrs@.len() - i,
    {
        let attr = &attrs[i];
        assert(views.subrange(0, i + 1).drop_last() =~= views.subrange(0, i as int));
        assert(views.subrange(0, i + 1).last() == attr@);
        if str_ends_with(attr.key.as_str(), first_key) {
            match &attr.value {
                None => {
                    proof {
                        lemma_scan_none_extends(views, i + 1, first_key@, second_key@);
                    }
                    return None;
                },
                Some(v) => {
                    first = Some(v.clone());
                },
            }
        } else if str_ends_with(attr.key.as_str(), second_key) {
            match &attr.value {
                None => {
                    proof {
                        lemma_scan_none_extends(views, i + 1, first_key@, second_key@);
                    }
                    return None;
                },
                Some(v) => {
                    second = Some(v.clone());
                },
            }
        }
        i = i + 1;
    }
    assert(views.subrange(0, attrs@.len() as int) =~= views);
    Some((first, second))
}

/// `r` reports lookup outcome `l`; a missing relationship names what was
/// looked for.
pub open spec fn lookup_result(r: Result<String, SplitError>, l: Lookup, wanted: Seq<char>) -> bool {
    match l {
        Lookup::Found(v) => r matches Ok(s) && s@ == v,
        Lookup::Malformed => r matches Err(SplitError::MalformedContainer),
        Lookup::NotFound => r matches Err(SplitError::RelationshipNotFound(n)) && n@ == wanted,
    }
}

/// Finds, among elements whose names end with `tag_suffix`, the first whose
/// `first_key` attribute equals `wanted`, and returns its `second_key`
/// attribute.
pub fn lookup_tag_attr(
    tags: &Vec<XmlTag>,
    tag_suffix: &str,
    first_key: &str,
    second_key: &str,
    wanted: &str,
) -> (r: Result<String, SplitError>)
    ensures
        lookup_result(
            r,
            lookup_spec(tags@.map_values(|t: XmlTag| t@), tag_suffix@, first_key@, second_key@, wanted@),
            wanted@,
        ),
{
    let ghost views = tags@.map_values(|t: XmlTag| t@);
    assert(views.subrange(0, views.len() as int) =~= views);
    let mut i: usize = 0;
    while i < tags.len()
        invariant
            i <= tags@.len(),
            views == tags@.map_values(|t: XmlTag| t@),
            lookup_spec(views, tag_suffix@, first_key@, second_key@, wanted@) == lookup_spec(
                views.subrange(i as int, views.len() as int),
                tag_suffix@,
                first_key@,
                second_key@,
                wanted@,
            ),
        decreases tags@.len() - i,
    {
        let tag = &tags[i];
        let ghost suffix = views.subrange(i as int, views.len() as int);
        assert(suffix.drop_first() =~= views.subrange(i + 1, views.len() as int));
        assert(suffix[0] == tag@);
        i = i + 1;
        if !str_ends_with(tag.name.as_str(), tag_suffix) {
            continue;
        }
        match scan_tag_attrs(&tag.attrs, first_key, second_key) {
            None => {
                return Err(SplitError::MalformedContainer);
            },
            Some((Some(a), Some(b))) => {
                if str_eq(a.as_str(), wanted) {
                    return Ok(b);
                }
            },
            _ => {},
        }
    }
    assert(views.subrange(i as int, views.len() as int) =~= Seq::<
        (Seq<char>, Seq<(Seq<char>, Option<Seq<char>>)>),
    >::empty());
    Err(SplitError::RelationshipNotFound(wanted.to_owned()))
}

/// What a lookup in a part gives: where the element is not found and the
/// part stopped at a syntax error, the part is malformed.
pub open spec fn part_lookup(xml: Seq<char>, l: Lookup) -> Lookup {
    match l {
        Lookup::NotFound => if xml_tags_of(xml).1 {
            Lookup::NotFound
        } else {
            Lookup::Malformed
        },
        _ => l,
    }
}

fn lookup_in_part(
    xml: &str,
    tag_suffix: &str,
    first_key: &str,
    second_key: &str,
    wanted: &str,
) -> (r: Result<String, SplitError>)
    ensures
        lookup_result(
            r,
            part_lookup(
                xml@,
                lookup_spec(xml_tags_of(xml@).0, tag_suffix@, first_key@, second_key@, wanted@),
            ),
            wanted@,
        ),
{
    let (tags, complete) = xml_tags(xml);
    match lookup_tag_attr(&tags, tag_suffix, first_key, second_key, wanted) {
        Err(SplitError::RelationshipNotFound(n)) => {
            if complete {
                Err(SplitError::RelationshipNotFound(n))
            } else {
                Err(SplitError::MalformedContainer)
            }
        },
        other => other,
    }
}

/// Finds the relationship id of the sheet named `sheet_name` in the
/// workbook part.
pub fn find_sheet_rel_id(workbook_xml: &str, sheet_name: &str) -> (r: Result<String, SplitError>)
    ensures
        lookup_result(
            r,
            part_lookup(
                workbook_xml@,
                lookup_spec(xml_tags_of(workbook_xml@).0, "sheet"@, "name"@, ":id"@, sheet_name@),
            ),
            sheet_name@,
        ),
{
    lookup_in_part(workbook_xml, "sheet", "name", ":id", sheet_name)
}

/// Finds the target part of relationship `rel_id` in the workbook's
/// relationship part.
pub fn find_sheet_target(rels_xml: &str, rel_id: &str) -> (r: Result<String, SplitError>)
    ensures
        lookup_result(
            r,
            part_lookup(
                rels_xml@,
                lookup_spec(xml_tags_of(rels_xml@).0, "Relationship"@, "Id"@, "Target"@, rel_id@),
            ),
            rel_id@,
        ),
{
    lookup_in_part(rels_xml, "Relationship", "Id", "Target", rel_id)
}

/// The regions named by the decodable `ref` attributes among `attrs`.
pub open spec fn merges_of_attrs(attrs: Seq<(Seq<char>, Option<Seq<char>>)>) -> Seq<MergeRange>
    decreases attrs.len(),
{
    if attrs.len() == 0 {
        Seq::empty()
    } else {
        let rest = merges_of_attrs(attrs.drop_last());
        let (key, value) = attrs.last();
        if ends_with(key, "ref"@) {
            match value {
                Some(v) => match range_ref_spec(v) {
                    Some(m) => rest.push(m),
                    None => rest,
                },
                None => rest,
            }
        } else {
            rest
        }
    }
}

/// The regions declared by the `mergeCell` elements among `tags`, in
/// document order; a reference that does not decode is left out.
pub open spec fn merges_of_tags(tags: Seq<(Seq<char>, Seq<(Seq<char>, Option<Seq<char>>)>)>) -> Seq<
    MergeRange,
>
    decreases tags.len(),
{
    if tags.len() == 0 {
        Seq::empty()
    } else {
        let rest = merges_of_tags(tags.drop_last());
        if ends_with(tags.last().0, "mergeCell"@) {
            rest + merges_of_attrs(tags.last().1)
        } else {
            rest
        }
    }
}

/// Collects the merged regions that the `mergeCell` elements among `tags`
/// declare.
pub fn merges_in_tags(tags: &Vec<XmlTag>) -> (r: Vec<MergeRange>)
    ensures
        r@ == merges_of_tags(tags@.map_values(|t: XmlTag| t@)),
{
    let ghost views = tags@.map_values(|t: XmlTag| t@);
    let mut ranges: Vec<MergeRange> = Vec::new();
    let mut i: usize = 0;
    assert(views.subrange(0, 0) =~= Seq::<(Seq<char>, Seq<(Seq<char>, Option<Seq<char>>)>)>::empty());
    while i < tags.len()
        invariant
            i <= tags@.len(),
            views == tags@.map_values(|t: XmlTag| t@),
            ranges@ == merges_of_tags(views.subrange(0, i as int)),
        decreases tags@.len() - i,
    {
        let tag = &tags[i];
        assert(views.subrange(0, i + 1).drop_last() =~= views.subrange(0, i as int));
        assert(views.subrange(0, i + 1).last() == tag@);
        if str_ends_with(tag.name.as_str(), "mergeCell") {
            let ghost avs = tag.attrs@.map_values(|a: XmlAttr| a@);
            let ghost base = ranges@;
            let mut j: usize = 0;
            assert(avs.subrange(0, 0) =~= Seq::<(Seq<char>, Option<Seq<char>>)>::empty());
            assert(base + merges_of_attrs(avs.subrange(0, 0)) =~= base);
            while j < tag.attrs.len()
                invariant
                    j <= tag.attrs@.len(),
                    avs == tag.attrs@.map_values(|a: XmlAttr| a@),
                    ranges@ == base + merges_of_attrs(avs.subrange(0, j as int)),
                decreases tag.attrs@.len() - j,
            {
                let attr = &tag.attrs[j];
                assert(avs.subrange(0, j + 1).drop_last() =~= avs.subrange(0, j as int));
                assert(avs.subrange(0, j + 1).last() == attr@);
                if str_ends_with(attr.key.as_str(), "ref") {
                    if let Some(v) = &attr.value {
                        if let Some(range) = parse_range_ref(v.as_str()) {
                            ranges.push(range);
                        }
                    }
                }
                j = j + 1;
                assert(ranges@ =~= base + merges_of_attrs(avs.subrange(0, j as int)));
            }
            assert(avs.subrange(0, tag.attrs@.len() as int) =~= avs);
        }
        i = i + 1;
    }
    assert(views.subrange(0, views.len() as int) =~= views);
    ranges
}

/// The merged regions that a sheet part declares; a part with a syntax
/// error is malformed.
pub fn parse_merge_cells(sheet_xml: &str) -> (r: Result<Vec<MergeRange>, SplitError>)
    ensures
        r is Ok <==> xml_tags_of(sheet_xml@).1,
        r matches Ok(v) ==> v@ == merges_of_tags(xml_tags_of(sheet_xml@).0),
        r matches Err(e) ==> e == SplitError::MalformedContainer,
{
    let (tags, complete) = xml_tags(sheet_xml);
    if !complete {
        return Err(SplitError::MalformedContainer);
    }
    Ok(merges_in_tags(&tags))
}

/// `s` without its leading `c` characters.
pub open spec fn strip_leading(s: Seq<char>, c: char) -> Seq<char>
    decreases s.len(),
{
    if s.len() > 0 && s[0] == c {
        strip_leading(s.drop_first(), c)
    } else {
        s
    }
}

proof fn lemma_strip_leading(s: Seq<char>, c: char, i: int)
    requires
        0 <= i <= s.len(),
        forall|j: int| 0 <= j < i ==> s[j] == c,
        i == s.len() || s[i] != c,
    ensures
        strip_leading(s, c) == s.subrange(i, s.len() as int),
    decreases i,
{
    if i > 0 {
        let t = s.drop_first();
        assert forall|j: int| 0 <= j < i - 1 implies t[j] == c by {
            assert(t[j] == s[j + 1]);
        }
        lemma_strip_leading(t, c, i - 1);
        assert(t.subrange(i - 1, t.len() as int) =~= s.subrange(i, s.len() as int));
    } else {
        assert(s.subrange(0, s.len() as int) =~= s);
    }
}

/// The path of a workbook relationship's target inside the container:
/// under `xl/`, with the target's leading `/` characters dropped.
pub fn sheet_part_path(target: &str) -> (r: String)
    ensures
        r@ == "xl/"@ + strip_leading(target@, '/'),
{
    let n = target.unicode_len();
    let mut i: usize = 0;
    while i < n && target.get_char(i) == '/'
        invariant
            n == target@.len(),
            i <= n,
            forall|j: int| 0 <= j < i ==> target@[j] == '/',
        decreases n - i,
    {
        i = i + 1;
    }
    proof {
        lemma_strip_leading(target@, '/', i as int);
    }
    let mut path = String::new();
    path.push('x');
    path.push('l');
    path.push('/');
    path.append(target.substring_char(i, n));
    proof {
        reveal_strlit("xl/");
        assert(path@ =~= "xl/"@ + strip_leading(target@, '/'));
    }
    path
}

pub open spec fn ascii_lower(c: char) -> char {
    if 'A' <= c && c <= 'Z' {
        ((c as u32) + 32) as char
    } else {
        c
    }
}

/// Merged regions are read only from the zip-packaged format, whose files
/// carry the extension `xlsx` in any letter case.
pub fn supports_merge_extraction(extension: &str) -> (r: bool)
    ensures
        r == (extension@.len() == 4 && ascii_lower(extension@[0]) == 'x' && ascii_lower(
            extension@[1],
        ) == 'l' && ascii_lower(extension@[2]) == 's' && ascii_lower(extension@[3]) == 'x'),
{
    if extension.unicode_len() != 4 {
        return false;
    }
    let a = extension.get_char(0);
    let b = extension.get_char(1);
    let c = extension.get_char(2);
    let d = extension.get_char(3);
    (a == 'x' || a == 'X') && (b == 'l' || b == 'L') && (c == 's' || c == 'S') && (d == 'x' || d
        == 'X')
}

} // verus!
