use vstd::prelude::*;
use vstd::string::*;
use crate::text::chars_of;

verus! {

/// Euclid's greatest common divisor.
pub open spec fn gcd_of(a: nat, b: nat) -> nat
    decreases b,
{
    if b == 0 {
        a
    } else {
        gcd_of(b, a % b)
    }
}

proof fn lemma_gcd_positive(a: nat, b: nat)
    requires
        a > 0 || b > 0,
    ensures
        gcd_of(a, b) > 0,
    decreases b,
{
    if b > 0 {
        lemma_gcd_positive(b, a % b);
    }
}

pub fn gcd(a: usize, b: usize) -> (r: usize)
    ensures
        r == gcd_of(a as nat, b as nat),
{
    let ghost g = gcd_of(a as nat, b as nat);
    let mut a = a;
    let mut b = b;
    while b != 0
        invariant
            gcd_of(a as nat, b as nat) == g,
        decreases b,
    {
        let t = b;
        b = a % b;
        a = t;
    }
    a
}

/// The running least common multiple of the first `n` values: each step multiplies
/// by the next value and divides by the two numbers' greatest common divisor.
pub open spec fn lcm_steps(ds: Seq<usize>, n: int) -> nat
    decreases n,
{
    if n <= 1 {
        ds[0] as nat
    } else {
        let l = lcm_steps(ds, n - 1);
        ((l * ds[n - 1] as nat) / gcd_of(l, ds[n - 1] as nat)) as nat
    }
}

/// The least common multiple of the distances, folded from the first.
pub fn lcm(dists: Vec<usize>) -> (r: usize)
    requires
        dists@.len() >= 1,
        forall|i: int| 1 <= i < dists@.len() ==> (#[trigger] dists@[i]) > 0,
        forall|i: int| 1 <= i < dists@.len() ==> lcm_steps(dists@, i) * (#[trigger] dists@[i]) <= usize::MAX,
    ensures
        r == lcm_steps(dists@, dists@.len() as int),
{
    let mut lcm = dists[0];
    let mut i: usize = 1;
    while i < dists.len()
        invariant
            1 <= i <= dists@.len(),
            lcm == lcm_steps(dists@, i as int),
            forall|k: int| 1 <= k < dists@.len() ==> (#[trigger] dists@[k]) > 0,
            forall|k: int| 1 <= k < dists@.len() ==> lcm_steps(dists@, k) * (#[trigger] dists@[k]) <= usize::MAX,
        decreases dists@.len() - i,
    {
        let d = dists[i];
        assert(lcm * d <= usize::MAX);
        proof {
            lemma_gcd_positive(lcm as nat, d as nat);
        }
        let g = gcd(lcm, d);
        lcm = (lcm * d) / g;
        i += 1;
    }
    lcm
}


/// A letter, digit or underscore of ASCII.
pub open spec fn is_word_char(c: char) -> bool {
    ('a' <= c && c <= 'z') || ('A' <= c && c <= 'Z') || ('0' <= c && c <= '9') || c == '_'
}

/// The end of the run of word characters that starts at `i`.
pub open spec fn word_end(s: Seq<char>, i: int) -> int
    decreases s.len() - i,
{
    if 0 <= i < s.len() && is_word_char(s[i]) {
        word_end(s, i + 1)
    } else {
        i
    }
}

pub open spec fn has_text(s: Seq<char>, i: int, w: Seq<char>) -> bool {
    0 <= i && i + w.len() <= s.len() && s.subrange(i, i + w.len()) == w
}

/// A node line `ID = (LEFT, RIGHT)` starts at `i`.
pub open spec fn node_at(s: Seq<char>, i: int) -> bool {
    let j = word_end(s, i);
    let k = word_end(s, j + 4);
    let m = word_end(s, k + 2);
    &&& 0 <= i < s.len()
    &&& is_word_char(s[i])
    &&& has_text(s, j, seq![' ', '=', ' ', '('])
    &&& k > j + 4
    &&& has_text(s, k, seq![',', ' '])
    &&& m > k + 2
    &&& has_text(s, m, seq![')'])
}

/// The three names of the first node line in `s`.
pub open spec fn node_groups(s: Seq<char>) -> Option<(Seq<char>, Seq<char>, Seq<char>)> {
    if exists|i: int| node_at(s, i) {
        let i = choose|i: int| node_at(s, i) && forall|k: int| 0 <= k < i ==> !node_at(s, k);
        let j = word_end(s, i);
        let k = word_end(s, j + 4);
        let m = word_end(s, k + 2);
        Some((s.subrange(i, j), s.subrange(j + 4, k), s.subrange(k + 2, m)))
    } else {
        None
    }
}

/// Relies on `regex::Regex::captures`, which finds the leftmost match: the three
/// capture groups of the first `([A-Za-z0-9_]+) = \(([A-Za-z0-9_]+), ([A-Za-z0-9_]+)\)`
/// in `line`.
#[verifier::external_body]
fn node_captures(line: &str) -> (r: Option<(String, String, String)>)
    ensures
        match node_groups(line@) {
            Some((a, b, c)) => r matches Some((x, y, z)) && x@ == a && y@ == b && z@ == c,
            None => r is None,
        },
{
    let re = regex::Regex::new(r"([A-Za-z0-9_]+) = \(([A-Za-z0-9_]+), ([A-Za-z0-9_]+)\)").unwrap();
    match re.captures(line) {
        Some(caps) => match (caps.get(1), caps.get(2), caps.get(3)) {
            (Some(a), Some(b), Some(c)) => Some(
                (a.as_str().to_string(), b.as_str().to_string(), c.as_str().to_string()),
            ),
            _ => None,
        },
        None => None,
    }
}

/// Why the network could not be read or walked.
#[derive(Debug, Clone, Copy, PartialEq, Eq, Structural)]
pub enum NetworkError {
    /// A line that does not read `ID = (LEFT, RIGHT)`.
    BadLine,
    /// No directions to follow.
    NoDirections,
    /// A direction other than `L` and `R`.
    BadDirection,
    /// A node that no line describes.
    UnknownNode,
    /// No node ending in `Z` within the steps allowed.
    NoArrival,
}

/// Reads a node line `ID = (LEFT, RIGHT)`.
pub fn parse_line(line: &str) -> (r: Result<(String, String, String), NetworkError>)
    ensures
        match node_groups(line@) {
            Some((a, b, c)) => r matches Ok((x, y, z)) && x@ == a && y@ == b && z@ == c,
            None => r == Err::<(String, String, String), NetworkError>(NetworkError::BadLine),
        },
{
    match node_captures(line) {
        Some(t) => Ok(t),
        None => Err(NetworkError::BadLine),
    }
}

pub type NodeModel = (Seq<char>, Seq<char>, Seq<char>);

pub open spec fn node_models(nodes: Seq<(String, String, String)>) -> Seq<NodeModel> {
    nodes.map_values(|n: (String, String, String)| (n.0@, n.1@, n.2@))
}

/// The left and right neighbours of `id`, from the last line that names it.
pub open spec fn lookup(nodes: Seq<NodeModel>, id: Seq<char>) -> Option<(Seq<char>, Seq<char>)>
    decreases nodes.len(),
{
    if nodes.len() == 0 {
        None
    } else if nodes.last().0 == id {
        Some((nodes.last().1, nodes.last().2))
    } else {
        lookup(nodes.drop_last(), id)
    }
}

pub open spec fn ends_with_z(id: Seq<char>) -> bool {
    id.len() > 0 && id.last() == 'Z'
}

/// The steps from `node`, at direction `i`, to a node ending in `Z`, with at most
/// `fuel` steps; the directions repeat from the first after the last.
pub open spec fn steps_to_z(dirs: Seq<char>, nodes: Seq<NodeModel>, node: Seq<char>, i: int, fuel: nat) -> Result<int, NetworkError>
    decreases fuel,
{
    if ends_with_z(node) {
        Ok(0)
    } else if fuel == 0 {
        Err(NetworkError::NoArrival)
    } else if !(0 <= i < dirs.len()) {
        Err(NetworkError::NoDirections)
    } else {
        match lookup(nodes, node) {
            None => Err(NetworkError::UnknownNode),
            Some((l, r)) => if dirs[i] == 'L' || dirs[i] == 'R' {
                let nx = if dirs[i] == 'L' { l } else { r };
                let ni = if i == dirs.len() - 1 { 0 } else { i + 1 };
                match steps_to_z(dirs, nodes, nx, ni, (fuel - 1) as nat) {
                    Ok(c) => Ok(c + 1),
                    Err(e) => Err(e),
                }
            } else {
                Err(NetworkError::BadDirection)
            },
        }
    }
}

fn find_node(nodes: &Vec<(String, String, String)>, id: &String) -> (r: Option<(String, String)>)
    ensures
        match lookup(node_models(nodes@), id@) {
            Some((l, rt)) => r matches Some((a, b)) && a@ == l && b@ == rt,
            None => r is None,
        },
{
    let ghost ns = node_models(nodes@);
    let mut i: usize = nodes.len();
    assert(ns.take(i as int) =~= ns);
    while i > 0
        invariant
            ns == node_models(nodes@),
            i <= nodes@.len(),
            lookup(ns, id@) == lookup(ns.take(i as int), id@),
        decreases i,
    {
        assert(ns.take(i as int).drop_last() =~= ns.take(i - 1));
        let n = &nodes[i - 1];
        if n.0 == *id {
            return Some((n.1.clone(), n.2.clone()));
        }
        i -= 1;
    }
    None
}

/// The steps from `start` to a node ending in `Z`, following the directions in turn
/// and again from the first, at most `fuel` of them.
pub fn steps_from(directions: &Vec<char>, nodes: &Vec<(String, String, String)>, start: &String, fuel: usize) -> (r: Result<usize, NetworkError>)
    ensures
        match steps_to_z(directions@, node_models(nodes@), start@, 0, fuel as nat) {
            Ok(c) => r == Ok::<usize, NetworkError>(c as usize),
            Err(e) => r == Err::<usize, NetworkError>(e),
        },
{
    let ghost goal = steps_to_z(directions@, node_models(nodes@), start@, 0, fuel as nat);
    let mut node = start.clone();
    let mut i: usize = 0;
    let mut count: usize = 0;
    let mut left: usize = fuel;
    loop
        invariant
            goal == steps_to_z(directions@, node_models(nodes@), start@, 0, fuel as nat),
            count + left == fuel,
            i < directions@.len() || (i == 0 && directions@.len() == 0),
            goal == match steps_to_z(directions@, node_models(nodes@), node@, i as int, left as nat) {
                Ok(c) => Ok(c + count),
                Err(e) => Err::<int, NetworkError>(e),
            },
        decreases left,
    {
        let n = node.as_str().unicode_len();
        if n > 0 && node.as_str().get_char(n - 1) == 'Z' {
            assert(ends_with_z(node@));
            assert(steps_to_z(directions@, node_models(nodes@), node@, i as int, left as nat) == Ok::<int, NetworkError>(0));
            return Ok(count);
        }
        assert(!ends_with_z(node@));
        if left == 0 {
            return Err(NetworkError::NoArrival);
        }
        if directions.len() == 0 {
            return Err(NetworkError::NoDirections);
        }
        let (l, r) = match find_node(nodes, &node) {
            Some(pair) => pair,
            None => {
                return Err(NetworkError::UnknownNode);
            },
        };
        let d = directions[i];
        if d != 'L' && d != 'R' {
            assert(steps_to_z(directions@, node_models(nodes@), node@, i as int, left as nat) == Err::<int, NetworkError>(NetworkError::BadDirection));
            return Err(NetworkError::BadDirection);
        }
        node = if d == 'L' {
            l
        } else {
            r
        };
        i = if i == directions.len() - 1 { 0 } else { i + 1 };
        count += 1;
        left -= 1;
    }
}


pub open spec fn ends_with_a(id: Seq<char>) -> bool {
    id.len() > 0 && id.last() == 'A'
}

/// The names among the first `n` nodes that end in `A`, each once, in order of first
/// appearance.
pub open spec fn start_names(nodes: Seq<NodeModel>, n: int) -> Seq<Seq<char>>
    decreases n,
{
    if n <= 0 {
        seq![]
    } else {
        let prev = start_names(nodes, n - 1);
        let id = nodes[n - 1].0;
        if ends_with_a(id) && !prev.contains(id) {
            prev.push(id)
        } else {
            prev
        }
    }
}

fn has_name(v: &Vec<String>, id: &String) -> (r: bool)
    ensures
        r == v@.map_values(|s: String| s@).contains(id@),
{
    let ghost vs = v@.map_values(|s: String| s@);
    let mut i: usize = 0;
    while i < v.len()
        invariant
            vs == v@.map_values(|s: String| s@),
            i <= v@.len(),
            forall|k: int| 0 <= k < i ==> vs[k] != id@,
        decreases v@.len() - i,
    {
        if v[i] == *id {
            assert(vs[i as int] == id@);
            return true;
        }
        i += 1;
    }
    false
}

/// The starting nodes: the names that end in `A`, each once, in order of first
/// appearance.
pub fn start_nodes(nodes: &Vec<(String, String, String)>) -> (r: Vec<String>)
    ensures
        r@.map_values(|s: String| s@) == start_names(node_models(nodes@), nodes@.len() as int),
{
    let ghost ns = node_models(nodes@);
    let mut starts: Vec<String> = Vec::new();
    let mut i: usize = 0;
    while i < nodes.len()
        invariant
            ns == node_models(nodes@),
            i <= nodes@.len(),
            starts@.map_values(|s: String| s@) == start_names(ns, i as int),
        decreases nodes@.len() - i,
    {
        let id = &nodes[i].0;
        assert(ns[i as int].0 == id@);
        let n = id.as_str().unicode_len();
        if n > 0 && id.as_str().get_char(n - 1) == 'A' && !has_name(&starts, id) {
            let ghost before = starts@.map_values(|s: String| s@);
            starts.push(id.clone());
            assert(starts@.map_values(|s: String| s@) =~= before.push(id@));
        }
        i += 1;
    }
    starts
}


/// The end of the run of capital letters that starts at `i`.
pub open spec fn caps_end(s: Seq<char>, i: int) -> int
    decreases s.len() - i,
{
    if 0 <= i < s.len() && 'A' <= s[i] && s[i] <= 'Z' {
        caps_end(s, i + 1)
    } else {
        i
    }
}

/// A node line `ID = (LEFT, RIGHT)` with names of capital letters starts at `i`.
pub open spec fn caps_node_at(s: Seq<char>, i: int) -> bool {
    let j = caps_end(s, i);
    let k = caps_end(s, j + 4);
    let m = caps_end(s, k + 2);
    &&& 0 <= i < s.len()
    &&& 'A' <= s[i] && s[i] <= 'Z'
    &&& has_text(s, j, seq![' ', '=', ' ', '('])
    &&& k > j + 4
    &&& has_text(s, k, seq![',', ' '])
    &&& m > k + 2
    &&& has_text(s, m, seq![')'])
}

/// The three names of the first such node line in `s`.
pub open spec fn caps_node_groups(s: Seq<char>) -> Option<(Seq<char>, Seq<char>, Seq<char>)> {
    if exists|i: int| caps_node_at(s, i) {
        let i = choose|i: int| caps_node_at(s, i) && forall|k: int| 0 <= k < i ==> !caps_node_at(s, k);
        let j = caps_end(s, i);
        let k = caps_end(s, j + 4);
        let m = caps_end(s, k + 2);
        Some((s.subrange(i, j), s.subrange(j + 4, k), s.subrange(k + 2, m)))
    } else {
        None
    }
}

/// Relies on `regex::Regex::captures`, which finds the leftmost match: the three
/// capture groups of the first `([A-Z]+) = \(([A-Z]+), ([A-Z]+)\)` in `line`.
#[verifier::external_body]
fn caps_node_captures(line: &str) -> (r: Option<(String, String, String)>)
    ensures
        match caps_node_groups(line@) {
            Some((a, b, c)) => r matches Some((x, y, z)) && x@ == a && y@ == b && z@ == c,
            None => r is None,
        },
{
    let re = regex::Regex::new(r"([A-Z]+) = \(([A-Z]+), ([A-Z]+)\)").unwrap();
    match re.captures(line) {
        Some(caps) => match (caps.get(1), caps.get(2), caps.get(3)) {
            (Some(a), Some(b), Some(c)) => Some(
                (a.as_str().to_string(), b.as_str().to_string(), c.as_str().to_string()),
            ),
            _ => None,
        },
        None => None,
    }
}

/// Reads a node line `ID = (LEFT, RIGHT)` whose names are capital letters.
pub fn parse_caps_line(line: &str) -> (r: Result<(String, String, String), NetworkError>)
    ensures
        match caps_node_groups(line@) {
            Some((a, b, c)) => r matches Ok((x, y, z)) && x@ == a && y@ == b && z@ == c,
            None => r == Err::<(String, String, String), NetworkError>(NetworkError::BadLine),
        },
{
    match caps_node_captures(line) {
        Some(t) => Ok(t),
        None => Err(NetworkError::BadLine),
    }
}

/// The steps from `node` to `ZZZ`, `count` steps having been taken, at most `fuel`
/// more: step `c` follows direction `c % 2`.
pub open spec fn steps_to_zzz(dirs: Seq<char>, nodes: Seq<NodeModel>, node: Seq<char>, count: int, fuel: nat) -> Result<int, NetworkError>
    decreases fuel,
{
    if node == seq!['Z', 'Z', 'Z'] {
        Ok(0)
    } else if fuel == 0 {
        Err(NetworkError::NoArrival)
    } else {
        match lookup(nodes, node) {
            None => Err(NetworkError::UnknownNode),
            Some((l, r)) => {
                let i = count % 2;
                if i >= dirs.len() {
                    Err(NetworkError::NoDirections)
                } else if dirs[i] == 'L' || dirs[i] == 'R' {
                    let nx = if dirs[i] == 'L' { l } else { r };
                    match steps_to_zzz(dirs, nodes, nx, count + 1, (fuel - 1) as nat) {
                        Ok(c) => Ok(c + 1),
                        Err(e) => Err(e),
                    }
                } else {
                    Err(NetworkError::BadDirection)
                }
            },
        }
    }
}

/// The steps from `AAA` to `ZZZ`, step `c` following direction `c % 2`, at most
/// `fuel` of them.
pub fn steps_aaa_to_zzz(directions: &Vec<char>, nodes: &Vec<(String, String, String)>, fuel: usize) -> (r: Result<usize, NetworkError>)
    ensures
        match steps_to_zzz(directions@, node_models(nodes@), seq!['A', 'A', 'A'], 0, fuel as nat) {
            Ok(c) => r == Ok::<usize, NetworkError>(c as usize),
            Err(e) => r == Err::<usize, NetworkError>(e),
        },
{
    let ghost goal = steps_to_zzz(directions@, node_models(nodes@), seq!['A', 'A', 'A'], 0, fuel as nat);
    let zzz = String::from_str("ZZZ");
    let mut node = String::from_str("AAA");
    proof {
        reveal_strlit("ZZZ");
        reveal_strlit("AAA");
    }
    assert(node@ =~= seq!['A', 'A', 'A']);
    assert(zzz@ =~= seq!['Z', 'Z', 'Z']);
    let mut count: usize = 0;
    let mut left: usize = fuel;
    loop
        invariant
            goal == steps_to_zzz(directions@, node_models(nodes@), seq!['A', 'A', 'A'], 0, fuel as nat),
            zzz@ == seq!['Z', 'Z', 'Z'],
            count + left == fuel,
            goal == match steps_to_zzz(directions@, node_models(nodes@), node@, count as int, left as nat) {
                Ok(c) => Ok(c + count),
                Err(e) => Err::<int, NetworkError>(e),
            },
        decreases left,
    {
        if node == zzz {
            return Ok(count);
        }
        if left == 0 {
            return Err(NetworkError::NoArrival);
        }
        let (l, r) = match find_node(nodes, &node) {
            Some(pair) => pair,
            None => {
                return Err(NetworkError::UnknownNode);
            },
        };
        let i = count % 2;
        if i >= directions.len() {
            return Err(NetworkError::NoDirections);
        }
        let d = directions[i];
        if d != 'L' && d != 'R' {
            return Err(NetworkError::BadDirection);
        }
        node = if d == 'L' {
            l
        } else {
            r
        };
        count += 1;
        left -= 1;
    }
}

} // verus!
