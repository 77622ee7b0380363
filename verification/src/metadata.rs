//! Band descriptions in GDAL's metadata text.

use vstd::prelude::*;

use crate::plan::{band_names_or_default, default_band_name};
use crate::text::{
    decimal, find, find_from, from_chars, join2, lemma_find, occurs_at, parse_usize, parsed_number,
    str_eq, to_chars, trim, trimmed,
};

verus! {

/// One `<Item ...>body</Item>` element.
pub struct Item {
    /// The `sample` attribute as a number, where it is one.
    pub sample: Option<usize>,
    /// The tag up to its closing bracket.
    pub attrs: String,
    pub body: String,
}

/// One `<Item ...>body</Item>` element of a text.
#[verifier::ext_equal]
pub struct ItemText {
    pub sample: Option<nat>,
    pub attrs: Seq<char>,
    pub body: Seq<char>,
}

/// The value of an attribute: what stands between `name="` and the next quote.
pub open spec fn attr_value(attrs: Seq<char>, name: Seq<char>) -> Option<Seq<char>> {
    let needle = name + "=\""@;
    match find(attrs, needle, 0) {
        None => None,
        Some(i) => {
            let start = i + needle.len();
            match find(attrs, "\""@, start) {
                None => None,
                Some(q) => Some(attrs.subrange(start, q)),
            }
        },
    }
}

/// The value of an attribute.
pub fn parse_attr(attrs: &str, name: &str) -> (r: Option<String>)
    ensures
        match attr_value(attrs@, name@) {
            Some(t) => r matches Some(s) && s@ == t,
            None => r is None,
        },
{
    let needle = join2(name, "=\"");
    let hay = to_chars(attrs);
    let pat = to_chars(needle.as_str());
    let quote_mark = to_chars("\"");
    proof {
        lemma_find(hay@, pat@, 0);
    }
    let i: usize = find_from(&hay, &pat, 0)?;
    assert(occurs_at(hay@, pat@, i as int));
    let hay_len: usize = hay.len();
    let start: usize = i + pat.len();
    proof {
        lemma_find(hay@, quote_mark@, start as int);
    }
    let q: usize = find_from(&hay, &quote_mark, start)?;
    Some(from_chars(&hay, start, q))
}

/// Whether an attribute has a value.
pub fn attr_eq(attrs: &str, name: &str, value: &str) -> (r: bool)
    ensures
        r == (attr_value(attrs@, name@) == Some(value@)),
{
    match parse_attr(attrs, name) {
        Some(s) => str_eq(s.as_str(), value),
        None => false,
    }
}

/// The element whose tag starts at `i`, ends before `c`, and whose body ends
/// before `e`.
pub open spec fn item_at(xml: Seq<char>, i: int, c: int, e: int) -> ItemText {
    let attrs = xml.subrange(i, c);
    ItemText {
        sample: match attr_value(attrs, "sample"@) {
            Some(v) => parsed_number(v, usize::MAX as nat),
            None => None,
        },
        attrs,
        body: xml.subrange(c + 1, e),
    }
}

/// The elements from position `from` on.
pub open spec fn items_from(xml: Seq<char>, from: int) -> Seq<ItemText>
    decreases xml.len() - from,
    via items_from_decreases
{
    match find(xml, "<Item"@, from) {
        None => Seq::empty(),
        Some(i) => match find(xml, ">"@, i) {
            None => Seq::empty(),
            Some(c) => match find(xml, "</Item>"@, c) {
                None => Seq::empty(),
                Some(e) => seq![item_at(xml, i, c, e)] + items_from(xml, e + 7),
            },
        },
    }
}

#[via_fn]
proof fn items_from_decreases(xml: Seq<char>, from: int) {
    lemma_find(xml, "<Item"@, from);
    if let Some(i) = find(xml, "<Item"@, from) {
        lemma_find(xml, ">"@, i);
        if let Some(c) = find(xml, ">"@, i) {
            lemma_find(xml, "</Item>"@, c);
            reveal_strlit("</Item>");
        }
    }
}

/// The text of an element.
pub open spec fn item_text(it: Item) -> ItemText {
    ItemText {
        sample: match it.sample {
            Some(n) => Some(n as nat),
            None => None,
        },
        attrs: it.attrs@,
        body: it.body@,
    }
}

/// The texts of elements.
pub open spec fn item_texts(items: Seq<Item>) -> Seq<ItemText> {
    Seq::new(items.len(), |k: int| item_text(items[k]))
}

/// The `<Item ...>body</Item>` elements of a text, in order.
pub fn walk_items(xml: &str) -> (r: Vec<Item>)
    ensures
        item_texts(r@) == items_from(xml@, 0),
{
    let text = to_chars(xml);
    let open = to_chars("<Item");
    let gt = to_chars(">");
    let close = to_chars("</Item>");
    let n: usize = text.len();
    let mut items: Vec<Item> = Vec::new();
    let mut from: usize = 0;
    proof {
        reveal_strlit("<Item");
        reveal_strlit(">");
        reveal_strlit("</Item>");
        assert(item_texts(items@) =~= Seq::empty());
    }
    loop
        invariant
            text@ == xml@,
            n == text@.len(),
            open@ == "<Item"@,
            gt@ == ">"@,
            close@ == "</Item>"@,
            gt@.len() == 1,
            close@.len() == 7,
            gt@[0] == '>',
            close@[0] == '<',
            from <= n,
            items_from(xml@, 0) == item_texts(items@) + items_from(xml@, from as int),
        decreases n - from,
    {
        proof {
            lemma_find(text@, open@, from as int);
        }
        let i: usize = match find_from(&text, &open, from) {
            Some(i) => i,
            None => {
                assert(items_from(xml@, from as int) =~= Seq::empty());
                assert(item_texts(items@) + Seq::empty() =~= item_texts(items@));
                return items;
            },
        };
        proof {
            lemma_find(text@, gt@, i as int);
        }
        let c: usize = match find_from(&text, &gt, i) {
            Some(c) => c,
            None => {
                assert(items_from(xml@, from as int) =~= Seq::empty());
                assert(item_texts(items@) + Seq::empty() =~= item_texts(items@));
                return items;
            },
        };
        proof {
            lemma_find(text@, close@, c as int);
            assert(occurs_at(text@, gt@, c as int));
            assert(text@.subrange(c as int, c + 1)[0] == '>');
        }
        let e: usize = match find_from(&text, &close, c) {
            Some(e) => e,
            None => {
                assert(items_from(xml@, from as int) =~= Seq::empty());
                assert(item_texts(items@) + Seq::empty() =~= item_texts(items@));
                return items;
            },
        };
        proof {
            assert(occurs_at(text@, close@, e as int));
            assert(text@.subrange(e as int, e + 7)[0] == '<');
            assert(e > c);
        }
        let attrs = from_chars(&text, i, c);
        let body = from_chars(&text, c + 1, e);
        let sample: Option<usize> = match parse_attr(attrs.as_str(), "sample") {
            Some(v) => parse_usize(v.as_str()),
            None => None,
        };
        let ghost before = items@;
        items.push(Item { sample, attrs, body });
        proof {
            let it = items@[before.len() as int];
            assert(item_text(it) =~= item_at(xml@, i as int, c as int, e as int));
            assert(item_texts(items@) =~= item_texts(before).push(item_text(it)));
            assert(items_from(xml@, from as int) == seq![
                item_at(xml@, i as int, c as int, e as int),
            ] + items_from(xml@, e + 7));
            assert(item_texts(items@) + items_from(xml@, e + 7) =~= item_texts(before)
                + items_from(xml@, from as int));
        }
        from = e + 7;
    }
}

/// Element `it` describes band `b` of `n_bands`.
pub open spec fn describes(it: ItemText, b: nat, n_bands: nat) -> bool {
    attr_value(it.attrs, "name"@) == Some("DESCRIPTION"@) && it.sample == Some(b) && b < n_bands
}

/// The description of band `b` among the first `n` elements, the last where
/// there are several.
pub open spec fn description(items: Seq<ItemText>, b: nat, n_bands: nat, n: int) -> Option<
    Seq<char>,
>
    decreases n,
{
    if n <= 0 {
        None
    } else if describes(items[n - 1], b, n_bands) {
        Some(trimmed(items[n - 1].body))
    } else {
        description(items, b, n_bands, n - 1)
    }
}

/// Some element describes a band.
pub open spec fn any_description(items: Seq<ItemText>, n_bands: nat) -> bool {
    exists|k: int, b: nat| 0 <= k < items.len() && #[trigger] describes(items[k], b, n_bands)
}

/// The name of band `b`: its description, else the default name.
pub open spec fn described_name(items: Seq<ItemText>, b: nat, n_bands: nat, n: int) -> Seq<char> {
    match description(items, b, n_bands, n) {
        Some(t) => t,
        None => default_band_name(b),
    }
}

/// The band descriptions of a metadata text, in band order; bands without one
/// keep their default name. Empty where no band is described.
pub fn parse_band_descriptions(xml: Option<&str>, n_bands: usize) -> (r: Vec<String>)
    ensures
        match xml {
            None => r@.len() == 0,
            Some(x) => {
                let items = items_from(x@, 0);
                if any_description(items, n_bands as nat) {
                    r@.len() == n_bands && forall|b: int|
                        0 <= b < n_bands ==> (#[trigger] r@[b])@ == described_name(
                            items,
                            b as nat,
                            n_bands as nat,
                            items.len() as int,
                        )
                } else {
                    r@.len() == 0
                }
            },
        },
{
    let x = match xml {
        Some(x) => x,
        None => {
            return Vec::new();
        },
    };
    let items = walk_items(x);
    let ghost texts = items_from(x@, 0);
    let mut out = band_names_or_default(Vec::new(), n_bands);
    let mut found: bool = false;
    for k in 0..items.len()
        invariant
            texts == item_texts(items@),
            texts.len() == items@.len(),
            out@.len() == n_bands,
            found == (exists|j: int, b: nat|
                0 <= j < k && #[trigger] describes(texts[j], b, n_bands as nat)),
            forall|b: int|
                0 <= b < n_bands ==> (#[trigger] out@[b])@ == described_name(
                    texts,
                    b as nat,
                    n_bands as nat,
                    k as int,
                ),
    {
        assert(texts[k as int] == item_text(items@[k as int]));
        let ghost was = out@;
        let ghost was_found = found;
        if attr_eq(items[k].attrs.as_str(), "name", "DESCRIPTION") {
            if let Some(s) = items[k].sample {
                if s < n_bands {
                    let t = trim(items[k].body.as_str());
                    out.set(s, t);
                    found = true;
                    assert(describes(texts[k as int], s as nat, n_bands as nat));
                }
            }
        }
        proof {
            assert forall|b: int| 0 <= b < n_bands implies (#[trigger] out@[b])@ == described_name(
                texts,
                b as nat,
                n_bands as nat,
                k + 1,
            ) by {
                assert(was[b]@ == described_name(texts, b as nat, n_bands as nat, k as int));
                if describes(texts[k as int], b as nat, n_bands as nat) {
                } else {
                    assert(out@[b] == was[b]);
                }
            }
            if exists|j: int, b: nat|
                0 <= j < k + 1 && #[trigger] describes(texts[j], b, n_bands as nat) {
                let (j, b) = choose|j: int, b: nat|
                    0 <= j < k + 1 && #[trigger] describes(texts[j], b, n_bands as nat);
                if j < k {
                    assert(was_found);
                }
                assert(found);
            }
            if was_found {
                let (j, b) = choose|j: int, b: nat|
                    0 <= j < k && #[trigger] describes(texts[j], b, n_bands as nat);
                assert(describes(texts[j], b, n_bands as nat));
            }
        }
    }
    if found {
        out
    } else {
        Vec::new()
    }
}

// ---------------------------------------------------------------------------
// laws

/// `needle` stands in `hay` at `i`, character by character.
pub open spec fn stands(hay: Seq<char>, needle: Seq<char>, i: int) -> bool {
    0 <= i && i + needle.len() <= hay.len() && forall|k: int|
        0 <= k < needle.len() ==> #[trigger] hay[i + k] == needle[k]
}

/// `i` is the first position from `from` on where `needle` stands in `hay`.
pub open spec fn stands_first(hay: Seq<char>, needle: Seq<char>, from: int, i: int) -> bool {
    &&& 0 <= from <= i
    &&& stands(hay, needle, i)
    &&& forall|p: int| from <= p < i ==> !#[trigger] stands(hay, needle, p)
}

proof fn lemma_found(hay: Seq<char>, needle: Seq<char>, from: int, i: int)
    requires
        stands_first(hay, needle, from, i),
    ensures
        find(hay, needle, from) == Some(i),
{
    crate::text::search_finds_the_first_place(hay, needle, from, i);
    let p = find(hay, needle, from)->Some_0;
    if p < i {
        assert(stands(hay, needle, p));
    }
}

proof fn lemma_not_found(hay: Seq<char>, needle: Seq<char>, from: int)
    requires
        0 <= from,
        forall|p: int| from <= p ==> !#[trigger] stands(hay, needle, p),
    ensures
        find(hay, needle, from) is None,
{
    crate::text::search_finds_the_first_place(hay, needle, from, from);
    if find(hay, needle, from) is Some {
        let p = find(hay, needle, from)->Some_0;
        assert(stands(hay, needle, p));
    }
}

/// An attribute's value stands between the quote behind its name and the next quote;
/// without its name, an equals sign and a quote there is none.
pub proof fn attributes_stand_between_quotes(attrs: Seq<char>, name: Seq<char>, i: int, q: int)
    ensures
        stands_first(attrs, name.push('=').push('"'), 0, i) && stands_first(
            attrs,
            Seq::empty().push('"'),
            i + name.len() + 2,
            q,
        ) ==> attr_value(attrs, name) == Some(attrs.subrange(i + name.len() + 2, q)),
        (forall|p: int| 0 <= p ==> !#[trigger] stands(attrs, name.push('=').push('"'), p))
            ==> attr_value(attrs, name) is None,
        stands_first(attrs, name.push('=').push('"'), 0, i) && (forall|p: int|
            i + name.len() + 2 <= p ==> !#[trigger] stands(attrs, Seq::empty().push('"'), p)) ==> attr_value(
            attrs,
            name,
        ) is None,
{
    reveal_strlit("=\"");
    reveal_strlit("\"");
    let needle = name.push('=').push('"');
    assert(needle =~= name + "=\""@);
    assert(Seq::empty().push('"') =~= "\""@);
    if stands_first(attrs, needle, 0, i) {
        lemma_found(attrs, needle, 0, i);
        if stands_first(attrs, Seq::empty().push('"'), i + name.len() + 2, q) {
            lemma_found(attrs, Seq::empty().push('"'), i + name.len() + 2, q);
        }
        if forall|p: int| i + name.len() + 2 <= p ==> !#[trigger] stands(attrs, Seq::empty().push('"'), p) {
            lemma_not_found(attrs, Seq::empty().push('"'), i + name.len() + 2);
        }
    }
    if forall|p: int| 0 <= p ==> !#[trigger] stands(attrs, needle, p) {
        lemma_not_found(attrs, needle, 0);
    }
}

/// Elements are read one after the other: the attributes up to the end of the opening
/// tag, the body up to the closing tag, and the next element from behind it.
pub proof fn items_stand_between_their_tags(xml: Seq<char>, from: int, i: int, c: int, e: int)
    ensures
        stands_first(xml, "<Item"@, from, i) && stands_first(xml, ">"@, i, c) && stands_first(
            xml,
            "</Item>"@,
            c,
            e,
        ) ==> {
            let all = items_from(xml, from);
            &&& all.len() == 1 + items_from(xml, e + 7).len()
            &&& all[0].attrs == xml.subrange(i, c)
            &&& all[0].body == xml.subrange(c + 1, e)
            &&& all.skip(1) == items_from(xml, e + 7)
            &&& attr_value(xml.subrange(i, c), "sample"@) is None ==> all[0].sample is None
            &&& forall|n: nat|
                n <= usize::MAX && attr_value(xml.subrange(i, c), "sample"@) == Some(
                    #[trigger] decimal(n),
                ) ==> all[0].sample == Some(n)
        },
        0 <= from && (forall|p: int| from <= p ==> !#[trigger] stands(xml, "<Item"@, p))
            ==> items_from(xml, from).len() == 0,
{
    if stands_first(xml, "<Item"@, from, i) && stands_first(xml, ">"@, i, c) && stands_first(
        xml,
        "</Item>"@,
        c,
        e,
    ) {
        lemma_found(xml, "<Item"@, from, i);
        lemma_found(xml, ">"@, i, c);
        lemma_found(xml, "</Item>"@, c, e);
        assert(items_from(xml, from).skip(1) =~= items_from(xml, e + 7));
        assert forall|n: nat|
            n <= usize::MAX && attr_value(xml.subrange(i, c), "sample"@) == Some(
                #[trigger] decimal(n),
            ) implies items_from(xml, from)[0].sample == Some(n) by {
            crate::text::numbers_are_read_back(n, usize::MAX as nat);
        }
    }
    if 0 <= from && (forall|p: int| from <= p ==> !#[trigger] stands(xml, "<Item"@, p)) {
        lemma_not_found(xml, "<Item"@, from);
    }
}

proof fn lemma_description_last(items: Seq<ItemText>, b: nat, n_bands: nat, n: int, k: int)
    requires
        0 <= k < n <= items.len(),
        b < n_bands,
        items[k].sample == Some(b),
        attr_value(items[k].attrs, "name"@) == Some("DESCRIPTION"@),
        forall|j: int|
            k < j < n ==> (#[trigger] items[j]).sample != Some(b) || attr_value(
                items[j].attrs,
                "name"@,
            ) != Some("DESCRIPTION"@),
    ensures
        description(items, b, n_bands, n) == Some(trimmed(items[k].body)),
    decreases n,
{
    if k < n - 1 {
        assert(items[n - 1].sample != Some(b) || attr_value(items[n - 1].attrs, "name"@) != Some(
            "DESCRIPTION"@,
        ));
        lemma_description_last(items, b, n_bands, n - 1, k);
    }
}

proof fn lemma_no_description(items: Seq<ItemText>, b: nat, n_bands: nat, n: int)
    requires
        0 <= n <= items.len(),
        forall|j: int|
            0 <= j < n ==> (#[trigger] items[j]).sample != Some(b) || attr_value(
                items[j].attrs,
                "name"@,
            ) != Some("DESCRIPTION"@),
    ensures
        description(items, b, n_bands, n) is None,
    decreases n,
{
    if n > 0 {
        assert(items[n - 1].sample != Some(b) || attr_value(items[n - 1].attrs, "name"@) != Some(
            "DESCRIPTION"@,
        ));
        lemma_no_description(items, b, n_bands, n - 1);
    }
}

/// A band is named after the last element called DESCRIPTION with its number, the first
/// band being number 0, without the blanks around it; one without such an element has
/// its default name.
pub proof fn the_last_description_names_the_band(
    items: Seq<ItemText>,
    b: nat,
    n_bands: nat,
    k: int,
)
    requires
        b < n_bands,
        0 <= k < items.len(),
    ensures
        items[k].sample == Some(b) && attr_value(items[k].attrs, "name"@) == Some("DESCRIPTION"@)
            && (forall|j: int|
            k < j < items.len() ==> (#[trigger] items[j]).sample != Some(b) || attr_value(
                items[j].attrs,
                "name"@,
            ) != Some("DESCRIPTION"@)) ==> described_name(items, b, n_bands, items.len() as int)
            == trimmed(items[k].body) && any_description(items, n_bands),
        (forall|j: int|
            0 <= j < items.len() ==> (#[trigger] items[j]).sample != Some(b) || attr_value(
                items[j].attrs,
                "name"@,
            ) != Some("DESCRIPTION"@)) ==> described_name(items, b, n_bands, items.len() as int)
            == default_band_name(b),
        (forall|j: int|
            0 <= j < items.len() ==> attr_value((#[trigger] items[j]).attrs, "name"@) != Some(
                "DESCRIPTION"@,
            )) ==> !any_description(items, n_bands),
        (forall|j: int|
            0 <= j < items.len() ==> ((#[trigger] items[j]).sample matches Some(c) ==> c
                >= n_bands)) ==> !any_description(items, n_bands),
{
    let n = items.len() as int;
    if items[k].sample == Some(b) && attr_value(items[k].attrs, "name"@) == Some("DESCRIPTION"@)
        && (forall|j: int|
        k < j < n ==> (#[trigger] items[j]).sample != Some(b) || attr_value(
            items[j].attrs,
            "name"@,
        ) != Some("DESCRIPTION"@)) {
        lemma_description_last(items, b, n_bands, n, k);
        assert(describes(items[k], b, n_bands));
    }
    if forall|j: int|
        0 <= j < n ==> (#[trigger] items[j]).sample != Some(b) || attr_value(
            items[j].attrs,
            "name"@,
        ) != Some("DESCRIPTION"@) {
        lemma_no_description(items, b, n_bands, n);
    }
}

} // verus!
