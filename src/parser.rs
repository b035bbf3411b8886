use vstd::prelude::*;
use crate::product::{refs_of, Product};
use crate::text::{chars_of, count_value, parse_count, trim, trim_range, words, words_from};

verus! {

/// The three fields of a record: identifier, display name, references.
pub type Fields = (Seq<char>, Seq<char>, Seq<Seq<char>>);

pub open spec fn fields_of(p: Product) -> Fields {
    (p.asin@, p.title@, refs_of(p))
}

/// The line that opens a record.
pub open spec fn id_tag() -> Seq<char> {
    seq!['I', 'd', ':']
}

pub open spec fn asin_tag() -> Seq<char> {
    seq!['A', 'S', 'I', 'N', ':']
}

pub open spec fn title_tag() -> Seq<char> {
    seq![' ', ' ', 't', 'i', 't', 'l', 'e', ':']
}

pub open spec fn similar_tag() -> Seq<char> {
    seq![' ', ' ', 's', 'i', 'm', 'i', 'l', 'a', 'r', ':']
}

pub open spec fn starts_with(s: Seq<char>, p: Seq<char>) -> bool {
    p.len() <= s.len() && s.take(p.len() as int) == p
}

/// The characters of `s` from position `k` on; empty when `s` is shorter.
pub open spec fn after(s: Seq<char>, k: int) -> Seq<char> {
    if k <= s.len() {
        s.skip(k)
    } else {
        Seq::empty()
    }
}

/// The references listed after the tag of a similar line: a count, then at
/// least that many words, of which the first `count` are kept. `None` when
/// the line holds no valid count.
pub open spec fn similar_list(rest: Seq<char>) -> Option<Seq<Seq<char>>> {
    let ws = words(rest);
    if ws.len() == 0 {
        None
    } else {
        match count_value(ws[0]) {
            Some(c) => Some(
                ws.subrange(1, if c < ws.len() - 1 {
                    1 + c
                } else {
                    ws.len() as int
                }),
            ),
            None => None,
        }
    }
}

/// What a line inside a record does to its fields.
pub open spec fn fill(cur: Fields, s: Seq<char>) -> Fields {
    if starts_with(s, asin_tag()) {
        (trim(after(s, 6)), cur.1, cur.2)
    } else if starts_with(s, title_tag()) {
        (cur.0, trim(after(s, 9)), cur.2)
    } else if starts_with(s, similar_tag()) {
        match similar_list(after(s, 11)) {
            Some(l) => (cur.0, cur.1, l),
            None => cur,
        }
    } else {
        cur
    }
}

/// One line of input: an `Id:` line closes the open record and opens an
/// empty one; any other line fills the open record, or is skipped when no
/// record is open.
pub open spec fn step(st: (Seq<Fields>, Option<Fields>), s: Seq<char>) -> (Seq<Fields>, Option<Fields>) {
    if starts_with(s, id_tag()) {
        (
            match st.1 {
                Some(c) => st.0.push(c),
                None => st.0,
            },
            Some((Seq::empty(), Seq::empty(), Seq::empty())),
        )
    } else {
        match st.1 {
            Some(c) => (st.0, Some(fill(c, s))),
            None => st,
        }
    }
}

/// The state after reading `lines`, from no records and none open.
pub open spec fn parse_state(lines: Seq<Seq<char>>) -> (Seq<Fields>, Option<Fields>)
    decreases lines.len(),
{
    if lines.len() == 0 {
        (Seq::empty(), None)
    } else {
        step(parse_state(lines.drop_last()), lines.last())
    }
}

/// The records of a state: the closed ones, then the open one.
pub open spec fn records_of(st: (Seq<Fields>, Option<Fields>)) -> Seq<Fields> {
    match st.1 {
        Some(c) => st.0.push(c),
        None => st.0,
    }
}

/// The records read from `lines`.
pub open spec fn parse_records(lines: Seq<Seq<char>>) -> Seq<Fields> {
    records_of(parse_state(lines))
}

fn has_prefix(cs: &Vec<char>, p: &Vec<char>) -> (r: bool)
    ensures
        r == starts_with(cs@, p@),
{
    if p.len() > cs.len() {
        return false;
    }
    let mut i: usize = 0;
    while i < p.len()
        invariant
            p@.len() <= cs@.len(),
            i <= p@.len(),
            forall|k: int| 0 <= k < i ==> cs@[k] == p@[k],
        decreases p@.len() - i,
    {
        if cs[i] != p[i] {
            assert(cs@.take(p@.len() as int)[i as int] != p@[i as int]);
            return false;
        }
        i = i + 1;
    }
    assert(cs@.take(p@.len() as int) =~= p@);
    true
}

fn chars_after(cs: &Vec<char>, k: usize) -> (r: String)
    ensures
        r@ == trim(after(cs@, k as int)),
{
    if k <= cs.len() {
        assert(after(cs@, k as int) =~= cs@.subrange(k as int, cs@.len() as int));
        trim_range(cs, k, cs.len())
    } else {
        assert(after(cs@, k as int) =~= cs@.subrange(0, 0));
        trim_range(cs, 0, 0)
    }
}

/// The references of a similar line whose tag ends before position `k`.
fn similar_after(cs: &Vec<char>, k: usize) -> (r: Option<Vec<String>>)
    ensures
        match r {
            Some(l) => similar_list(after(cs@, k as int)) == Some(l@.map_values(|w: String| w@)),
            None => similar_list(after(cs@, k as int)) is None,
        },
{
    if k > cs.len() {
        assert(words(after(cs@, k as int)) =~= Seq::<Seq<char>>::empty()) by {
            assert(after(cs@, k as int).len() == 0);
        }
        return None;
    }
    let ws = words_from(cs, k);
    let ghost wv = ws@.map_values(|w: String| w@);
    assert(after(cs@, k as int) == cs@.skip(k as int));
    if ws.len() == 0 {
        return None;
    }
    match parse_count(&ws[0]) {
        None => None,
        Some(c) => {
            let avail = ws.len() - 1;
            let end: usize = if c < avail { 1 + c } else { ws.len() };
            let mut l: Vec<String> = Vec::new();
            let mut i: usize = 1;
            while i < end
                invariant
                    1 <= i <= end <= ws@.len(),
                    wv == ws@.map_values(|w: String| w@),
                    l@.len() == i - 1,
                    l@.map_values(|w: String| w@) == wv.subrange(1, i as int),
                decreases end - i,
            {
                let ghost before = l@;
                let w = ws[i].clone();
                l.push(w);
                let ghost nv = l@.map_values(|w: String| w@);
                let ghost bv = before.map_values(|w: String| w@);
                assert forall|k: int| 0 <= k < i implies #[trigger] nv[k] == wv.subrange(1, i + 1)[k] by {
                    if k < i - 1 {
                        assert(l@[k] == before[k]);
                        assert(bv[k] == wv.subrange(1, i as int)[k]);
                    } else {
                        assert(l@[k] == w);
                    }
                }
                assert(l@.map_values(|w: String| w@) =~= wv.subrange(1, i + 1));
                i = i + 1;
            }
            Some(l)
        },
    }
}

fn fill_product(p: Product, cs: &Vec<char>) -> (r: Product)
    ensures
        fields_of(r) == fill(fields_of(p), cs@),
{
    let asin_t = vec!['A', 'S', 'I', 'N', ':'];
    let title_t = vec![' ', ' ', 't', 'i', 't', 'l', 'e', ':'];
    let similar_t = vec![' ', ' ', 's', 'i', 'm', 'i', 'l', 'a', 'r', ':'];
    assert(asin_t@ =~= asin_tag());
    assert(title_t@ =~= title_tag());
    assert(similar_t@ =~= similar_tag());
    if has_prefix(cs, &asin_t) {
        Product { asin: chars_after(cs, 6), title: p.title, similar: p.similar }
    } else if has_prefix(cs, &title_t) {
        Product { asin: p.asin, title: chars_after(cs, 9), similar: p.similar }
    } else if has_prefix(cs, &similar_t) {
        match similar_after(cs, 11) {
            Some(l) => Product { asin: p.asin, title: p.title, similar: l },
            None => p,
        }
    } else {
        p
    }
}

/// Reads a catalog dump line by line. A record opens at each line that
/// starts with `Id:`; inside it, a line starting with `ASIN:` sets the
/// identifier to the text from position 6 on, trimmed, a line starting with
/// `  title:` sets the display name to the text from position 9 on, trimmed,
/// and a line starting with `  similar:` holds a count and then the
/// referenced identifiers, of which the first `count` are kept. Positions
/// count characters; a line too short for its position gives an empty
/// field, and a similar line without a valid count is skipped.
pub struct ProductParser {
    done: Vec<Product>,
    current: Option<Product>,
}

impl View for ProductParser {
    type V = (Seq<Fields>, Option<Fields>);

    closed spec fn view(&self) -> (Seq<Fields>, Option<Fields>) {
        (
            self.done@.map_values(|p: Product| fields_of(p)),
            match self.current {
                Some(p) => Some(fields_of(p)),
                None => None,
            },
        )
    }
}

impl ProductParser {
    pub fn new() -> (r: ProductParser)
        ensures
            r@ == parse_state(Seq::empty()),
    {
        let r = ProductParser { done: Vec::new(), current: None };
        assert(r@.0 =~= Seq::<Fields>::empty());
        r
    }

    /// Takes in one line.
    pub fn feed(&mut self, line: &String)
        ensures
            final(self)@ == step(old(self)@, line@),
    {
        let cs = chars_of(line);
        let id_t = vec!['I', 'd', ':'];
        assert(id_t@ =~= id_tag());
        let ghost before = self.done@.map_values(|p: Product| fields_of(p));
        if has_prefix(&cs, &id_t) {
            let prev = self.current.take();
            match prev {
                Some(p) => {
                    self.done.push(p);
                    assert(self.done@.map_values(|p: Product| fields_of(p)) =~= before.push(
                        fields_of(p),
                    ));
                },
                None => {},
            }
            self.current = Some(Product { asin: String::new(), title: String::new(), similar: Vec::new() });
            assert(refs_of(self.current.unwrap()) =~= Seq::<Seq<char>>::empty());
        } else {
            let prev = self.current.take();
            match prev {
                Some(p) => {
                    self.current = Some(fill_product(p, &cs));
                },
                None => {},
            }
        }
    }

    /// The records read so far, the open one last.
    pub fn finish(self) -> (r: Vec<Product>)
        ensures
            r@.map_values(|p: Product| fields_of(p)) == records_of(self@),
    {
        let mut done = self.done;
        let ghost before = done@.map_values(|p: Product| fields_of(p));
        match self.current {
            Some(p) => {
                done.push(p);
                assert(done@.map_values(|p: Product| fields_of(p)) =~= before.push(fields_of(p)));
            },
            None => {},
        }
        done
    }
}

/// The records of a catalog dump, given as its lines.
pub fn parse_lines(lines: &Vec<String>) -> (r: Vec<Product>)
    ensures
        r@.map_values(|p: Product| fields_of(p)) == parse_records(lines@.map_values(|s: String| s@)),
{
    let ghost all = lines@.map_values(|s: String| s@);
    let mut parser = ProductParser::new();
    let mut i: usize = 0;
    while i < lines.len()
        invariant
            i <= lines@.len(),
            all == lines@.map_values(|s: String| s@),
            parser@ == parse_state(all.take(i as int)),
        decreases lines@.len() - i,
    {
        assert(all.take(i + 1).drop_last() =~= all.take(i as int));
        parser.feed(&lines[i]);
        i = i + 1;
    }
    assert(all.take(lines@.len() as int) =~= all);
    parser.finish()
}

} // verus!
