//! The netlist document: modules with their ports, cells and net names.

use vstd::prelude::*;
use vstd::string::*;

use crate::table::Table;
use crate::text::{chars_of, parse_number, parse_unsigned, text_before};

verus! {

/// The number of a one-bit signal.
pub type SignalId = u32;

/// The direction of a port.
#[derive(Copy, Clone, Debug, Eq, PartialEq, Hash, Structural)]
pub enum PortDirection {
    Input,
    Output,
    InOut,
}

/// A constant in place of a signal: 0, 1, undefined or high impedance.
#[derive(Copy, Clone, Debug, Eq, PartialEq, Hash, Structural)]
pub enum ConstBit {
    _0,
    _1,
    X,
    Z,
}

/// Another name for [`ConstBit`].
pub type SpecialBit = ConstBit;

/// One bit of a port or a connection: a signal or a constant.
#[derive(Copy, Clone, Debug, Eq, PartialEq, Hash, Structural)]
pub enum BitVal {
    Signal(SignalId),
    Constant(ConstBit),
}

/// The value of an attribute or a parameter.
#[derive(Clone, Debug, Eq, PartialEq, Hash)]
pub enum AttributeVal {
    Number(usize),
    String(String),
}

/// A port of a module.
#[derive(Clone, Debug)]
pub struct Port {
    pub direction: PortDirection,
    pub bits: Vec<BitVal>,
    pub offset: usize,
}

/// A cell of a module.
#[derive(Clone, Debug)]
pub struct Cell {
    /// The name was made up by the tool that wrote the netlist.
    pub hide_name: bool,
    pub cell_type: String,
    pub parameters: Table<AttributeVal>,
    pub attributes: Table<AttributeVal>,
    pub port_directions: Table<PortDirection>,
    pub connections: Table<Vec<BitVal>>,
}

/// A memory of a module.
#[derive(Clone, Debug)]
pub struct Memory {
    pub hide_name: bool,
    pub attributes: Table<AttributeVal>,
    pub width: usize,
    pub size: usize,
    pub start_offset: usize,
}

/// The name of a net of a module.
#[derive(Clone, Debug)]
pub struct Netname {
    pub hide_name: bool,
    pub bits: Vec<BitVal>,
    pub attributes: Table<AttributeVal>,
}

/// A module.
#[derive(Clone, Debug)]
pub struct Module {
    pub attributes: Table<AttributeVal>,
    pub parameter_default_values: Table<AttributeVal>,
    pub ports: Table<Port>,
    pub cells: Table<Cell>,
    pub memories: Table<Memory>,
    pub netnames: Table<Netname>,
}

/// A netlist document.
#[derive(Clone, Debug)]
pub struct Netlist {
    /// The program that wrote the document.
    pub creator: String,
    pub modules: Table<Module>,
}

impl ConstBit {
    /// The logic value of the constant, if it has one.
    pub open spec fn value(self) -> Option<bool> {
        match self {
            ConstBit::_0 => Some(false),
            ConstBit::_1 => Some(true),
            _ => None,
        }
    }

    /// The logic value of the constant: none for `X` and `Z`.
    pub fn to_bool(&self) -> (b: Option<bool>)
        ensures
            b == self.value(),
    {
        match self {
            ConstBit::_0 => Some(false),
            ConstBit::_1 => Some(true),
            _ => None,
        }
    }
}

/// Every character of `s` is one of `0`, `1`, `x` and `z`.
pub open spec fn only_bit_letters(s: Seq<char>) -> bool {
    forall|i: int| 0 <= i < s.len() ==> #[trigger] s[i] == '0' || s[i] == '1' || s[i] == 'x' || s[i] == 'z'
}

impl AttributeVal {
    /// The number that the value stands for: the number itself, 0 for the
    /// empty text, and otherwise the text read as a binary numeral.
    pub open spec fn number(&self) -> Option<usize> {
        match self {
            AttributeVal::Number(n) => Some(*n),
            AttributeVal::String(s) => if s@.len() == 0 {
                Some(0)
            } else {
                parse_number(s@, 2)
            },
        }
    }

    /// The text that the value stands for: none for a number, for the empty
    /// text and for a text of bit letters alone, which stand for numbers;
    /// otherwise the text, without its last character where that is a space.
    pub open spec fn text(&self) -> Option<Seq<char>> {
        match self {
            AttributeVal::Number(_) => None,
            AttributeVal::String(s) => if s@.len() == 0 || only_bit_letters(s@) {
                None
            } else if s@.last() == ' ' {
                Some(s@.drop_last())
            } else {
                Some(s@)
            },
        }
    }

    /// The value as a number, as [`AttributeVal::number`] describes.
    pub fn to_number(&self) -> (n: Option<usize>)
        ensures
            n == self.number(),
    {
        match self {
            AttributeVal::Number(n) => Some(*n),
            AttributeVal::String(s) => {
                let chars = chars_of(s.as_str());
                if chars.len() == 0 {
                    Some(0)
                } else {
                    parse_unsigned(&chars, 2)
                }
            },
        }
    }

    /// Whether the value stands for a number other than zero; none where it
    /// stands for no number.
    pub fn to_bool(&self) -> (b: Option<bool>)
        ensures
            b == match self.number() {
                Some(n) => Some(n != 0),
                None => None,
            },
    {
        match self.to_number() {
            Some(n) => Some(n != 0),
            None => None,
        }
    }

    /// The value as a text, as [`AttributeVal::text`] describes.
    pub fn to_string_if_string(&self) -> (text: Option<&str>)
        ensures
            match text {
                Some(t) => self.text() == Some(t@),
                None => self.text().is_none(),
            },
    {
        match self {
            AttributeVal::Number(_) => None,
            AttributeVal::String(s) => {
                let chars = chars_of(s.as_str());
                let n = chars.len();
                if n == 0 {
                    return None;
                }
                let mut i: usize = 0;
                let mut plain = true;
                while i < n && plain
                    invariant
                        i <= n,
                        n == chars@.len(),
                        plain ==> only_bit_letters(chars@.subrange(0, i as int)),
                        !plain ==> !only_bit_letters(chars@),
                    decreases n - i + (if plain { 1int } else { 0int }),
                {
                    let c = chars[i];
                    if c == '0' || c == '1' || c == 'x' || c == 'z' {
                        i = i + 1;
                        assert forall|j: int| 0 <= j < i implies #[trigger] chars@.subrange(0, i as int)[j] == '0'
                            || chars@.subrange(0, i as int)[j] == '1' || chars@.subrange(0, i as int)[j] == 'x'
                            || chars@.subrange(0, i as int)[j] == 'z' by {
                            if j < i - 1 {
                                assert(chars@.subrange(0, i - 1)[j] == chars@[j]);
                            }
                        }
                    } else {
                        plain = false;
                        assert(!(chars@[i as int] == '0' || chars@[i as int] == '1' || chars@[i as int] == 'x'
                            || chars@[i as int] == 'z'));
                    }
                }
                if plain {
                    assert(chars@.subrange(0, n as int) =~= chars@);
                    return None;
                }
                if chars[n - 1] == ' ' {
                    let t = s.as_str().substring_char(0, n - 1);
                    assert(t@ =~= s@.drop_last());
                    Some(t)
                } else {
                    Some(s.as_str())
                }
            },
        }
    }
}

/// A copy of a list of bits.
pub fn copy_bits(bits: &Vec<BitVal>) -> (copy: Vec<BitVal>)
    ensures
        copy@ == bits@,
{
    let mut copy: Vec<BitVal> = Vec::new();
    let mut i: usize = 0;
    while i < bits.len()
        invariant
            i <= bits@.len(),
            copy@ == bits@.subrange(0, i as int),
        decreases bits.len() - i,
    {
        copy.push(bits[i]);
        i = i + 1;
        assert(copy@ =~= bits@.subrange(0, i as int));
    }
    assert(bits@.subrange(0, bits@.len() as int) =~= bits@);
    copy
}

impl Cell {
    /// The connection at position `i` belongs to a port of that direction.
    pub open spec fn has_direction(&self, i: int, direction: PortDirection) -> bool {
        self.port_directions.has(self.connections.name_at(i)) && self.port_directions.at(
            self.connections.name_at(i),
        ) == direction
    }

    /// The connection at position `i` belongs to an input port.
    pub open spec fn is_input_at(&self, i: int) -> bool {
        0 <= i < self.connections.size() && self.has_direction(i, PortDirection::Input)
    }

    /// The connection at position `i` belongs to an output port.
    pub open spec fn is_output_at(&self, i: int) -> bool {
        0 <= i < self.connections.size() && self.has_direction(i, PortDirection::Output)
    }

    /// The cell has an input port of that name, connected to that bit.
    pub open spec fn has_input_port(&self, name: Seq<char>, bit: BitVal) -> bool {
        exists|i: int| #[trigger]
            self.is_input_at(i) && self.connections.name_at(i) == name && self.connections.value_at(i)@ == seq![
                bit,
            ]
    }

    /// The cell has an output port of that name, which drives those bits.
    pub open spec fn has_output_port(&self, name: Seq<char>, bits: Seq<BitVal>) -> bool {
        exists|i: int| #[trigger]
            self.is_output_at(i) && self.connections.name_at(i) == name && self.connections.value_at(i)@ == bits
    }

    /// Every connection of an input port is one bit wide.
    pub open spec fn inputs_are_bits(&self) -> bool {
        forall|i: int| #[trigger] self.is_input_at(i) ==> self.connections.value_at(i)@.len() == 1
    }

    /// `ports` lists the input ports with their bits, by rising name.
    pub open spec fn lists_input_ports(&self, ports: Seq<(String, BitVal)>) -> bool {
        &&& forall|k: int| 0 <= k < ports.len() ==> self.has_input_port((#[trigger] ports[k]).0@, ports[k].1)
        &&& forall|a: int, b: int|
            0 <= a < b < ports.len() ==> text_before((#[trigger] ports[a]).0@, (#[trigger] ports[b]).0@)
        &&& forall|i: int| #[trigger]
            self.is_input_at(i) ==> exists|k: int|
                0 <= k < ports.len() && (#[trigger] ports[k]).0@ == self.connections.name_at(i)
    }

    /// `ports` lists the output ports with their bits, by rising name.
    pub open spec fn lists_output_ports(&self, ports: Seq<(String, Vec<BitVal>)>) -> bool {
        &&& forall|k: int| 0 <= k < ports.len() ==> self.has_output_port((#[trigger] ports[k]).0@, ports[k].1@)
        &&& forall|a: int, b: int|
            0 <= a < b < ports.len() ==> text_before((#[trigger] ports[a]).0@, (#[trigger] ports[b]).0@)
        &&& forall|i: int| #[trigger]
            self.is_output_at(i) ==> exists|k: int|
                0 <= k < ports.len() && (#[trigger] ports[k]).0@ == self.connections.name_at(i)
    }

    /// The direction of the port of the connection at position `i`.
    fn direction_at(&self, i: usize) -> (direction: Option<PortDirection>)
        requires
            i < self.connections.size(),
        ensures
            match direction {
                Some(d) => self.has_direction(i as int, d),
                None => !self.port_directions.has(self.connections.name_at(i as int)),
            },
    {
        match self.port_directions.get(self.connections.name(i).as_str()) {
            Some(d) => Some(*d),
            None => None,
        }
    }

    /// The input ports with the bit that each is connected to, ordered by
    /// name. None where an input port is connected to no bit or to several.
    pub fn input_ports(&self) -> (ports: Option<Vec<(String, BitVal)>>)
        ensures
            match ports {
                Some(list) => self.inputs_are_bits() && self.lists_input_ports(list@),
                None => !self.inputs_are_bits(),
            },
    {
        let order = self.connections.by_name();
        let mut list: Vec<(String, BitVal)> = Vec::new();
        let mut k: usize = 0;
        while k < order.len()
            invariant
                k <= order@.len(),
                self.connections.lists_by_name(order@),
                forall|a: int|
                    0 <= a < k && self.is_input_at(order@[a] as int) ==> self.connections.value_at(
                        #[trigger] order@[a] as int,
                    )@.len() == 1,
                forall|j: int| 0 <= j < list@.len() ==> self.has_input_port((#[trigger] list@[j]).0@, list@[j].1),
                forall|j1: int, j2: int|
                    0 <= j1 < j2 < list@.len() ==> text_before((#[trigger] list@[j1]).0@, (#[trigger] list@[j2]).0@),
                forall|j: int, b: int|
                    0 <= j < list@.len() && k <= b < order@.len() ==> text_before(
                        (#[trigger] list@[j]).0@,
                        self.connections.name_at(#[trigger] order@[b] as int),
                    ),
                forall|a: int|
                    0 <= a < k && self.is_input_at(#[trigger] order@[a] as int) ==> exists|j: int|
                        0 <= j < list@.len() && (#[trigger] list@[j]).0@ == self.connections.name_at(
                            order@[a] as int,
                        ),
            decreases order.len() - k,
        {
            let i = order[k];
            let ghost before = list@;
            if let Some(PortDirection::Input) = self.direction_at(i) {
                let bits = self.connections.value(i);
                if bits.len() != 1 {
                    assert(self.is_input_at(i as int));
                    return None;
                }
                list.push((self.connections.name(i).clone(), bits[0]));
                proof {
                    let j = list@.len() - 1;
                    assert(list@[j].0@ == self.connections.name_at(i as int));
                    assert(self.connections.value_at(i as int)@ =~= seq![list@[j].1]);
                    assert forall|j: int| 0 <= j < list@.len() implies self.has_input_port(
                        (#[trigger] list@[j]).0@,
                        list@[j].1,
                    ) by {
                        if j < before.len() {
                            assert(list@[j] == before[j]);
                        } else {
                            assert(self.is_input_at(i as int));
                        }
                    }
                    assert forall|j1: int, j2: int| 0 <= j1 < j2 < list@.len() implies text_before(
                        (#[trigger] list@[j1]).0@,
                        (#[trigger] list@[j2]).0@,
                    ) by {
                        if j2 < before.len() {
                            assert(list@[j1] == before[j1] && list@[j2] == before[j2]);
                        } else {
                            assert(list@[j1] == before[j1]);
                            assert(text_before(before[j1].0@, self.connections.name_at(order@[k as int] as int)));
                        }
                    }
                    assert forall|j: int, b: int| 0 <= j < list@.len() && k + 1 <= b < order@.len() implies text_before(
                        (#[trigger] list@[j]).0@,
                        self.connections.name_at(#[trigger] order@[b] as int),
                    ) by {
                        if j < before.len() {
                            assert(list@[j] == before[j]);
                        } else {
                            assert(text_before(
                                self.connections.name_at(order@[k as int] as int),
                                self.connections.name_at(order@[b] as int),
                            ));
                        }
                    }
                    assert forall|a: int| 0 <= a < k + 1 && self.is_input_at(#[trigger] order@[a] as int) implies exists|
                        j: int,
                    |
                        0 <= j < list@.len() && (#[trigger] list@[j]).0@ == self.connections.name_at(
                            order@[a] as int,
                        ) by {
                        if a < k {
                            let j = choose|j: int|
                                0 <= j < before.len() && (#[trigger] before[j]).0@ == self.connections.name_at(
                                    order@[a] as int,
                                );
                            assert(list@[j] == before[j]);
                        } else {
                            assert(list@[list@.len() - 1].0@ == self.connections.name_at(order@[a] as int));
                        }
                    }
                }
            } else {
                assert(!self.is_input_at(i as int));
            }
            k = k + 1;
        }
        proof {
            assert forall|i: int| #[trigger] self.is_input_at(i) implies self.connections.value_at(i)@.len() == 1
                && exists|j: int|
                0 <= j < list@.len() && (#[trigger] list@[j]).0@ == self.connections.name_at(i) by {
                assert(order@.contains(i as usize));
                let a = choose|a: int| 0 <= a < order@.len() && order@[a] == i as usize;
                assert(self.is_input_at(order@[a] as int));
            }
        }
        Some(list)
    }

    /// The output ports with the bits that each drives, ordered by name.
    pub fn output_ports(&self) -> (ports: Vec<(String, Vec<BitVal>)>)
        ensures
            self.lists_output_ports(ports@),
    {
        let order = self.connections.by_name();
        let mut list: Vec<(String, Vec<BitVal>)> = Vec::new();
        let mut k: usize = 0;
        while k < order.len()
            invariant
                k <= order@.len(),
                self.connections.lists_by_name(order@),
                forall|j: int| 0 <= j < list@.len() ==> self.has_output_port((#[trigger] list@[j]).0@, list@[j].1@),
                forall|j1: int, j2: int|
                    0 <= j1 < j2 < list@.len() ==> text_before((#[trigger] list@[j1]).0@, (#[trigger] list@[j2]).0@),
                forall|j: int, b: int|
                    0 <= j < list@.len() && k <= b < order@.len() ==> text_before(
                        (#[trigger] list@[j]).0@,
                        self.connections.name_at(#[trigger] order@[b] as int),
                    ),
                forall|a: int|
                    0 <= a < k && self.is_output_at(#[trigger] order@[a] as int) ==> exists|j: int|
                        0 <= j < list@.len() && (#[trigger] list@[j]).0@ == self.connections.name_at(
                            order@[a] as int,
                        ),
            decreases order.len() - k,
        {
            let i = order[k];
            let ghost before = list@;
            if let Some(PortDirection::Output) = self.direction_at(i) {
                list.push((self.connections.name(i).clone(), copy_bits(self.connections.value(i))));
                proof {
                    let j = list@.len() - 1;
                    assert(list@[j].0@ == self.connections.name_at(i as int));
                    assert forall|j: int| 0 <= j < list@.len() implies self.has_output_port(
                        (#[trigger] list@[j]).0@,
                        list@[j].1@,
                    ) by {
                        if j < before.len() {
                            assert(list@[j] == before[j]);
                        } else {
                            assert(self.is_output_at(i as int));
                        }
                    }
                    assert forall|j1: int, j2: int| 0 <= j1 < j2 < list@.len() implies text_before(
                        (#[trigger] list@[j1]).0@,
                        (#[trigger] list@[j2]).0@,
                    ) by {
                        if j2 < before.len() {
                            assert(list@[j1] == before[j1] && list@[j2] == before[j2]);
                        } else {
                            assert(list@[j1] == before[j1]);
                            assert(text_before(before[j1].0@, self.connections.name_at(order@[k as int] as int)));
                        }
                    }
                    assert forall|j: int, b: int| 0 <= j < list@.len() && k + 1 <= b < order@.len() implies text_before(
                        (#[trigger] list@[j]).0@,
                        self.connections.name_at(#[trigger] order@[b] as int),
                    ) by {
                        if j < before.len() {
                            assert(list@[j] == before[j]);
                        } else {
                            assert(text_before(
                                self.connections.name_at(order@[k as int] as int),
                                self.connections.name_at(order@[b] as int),
                            ));
                        }
                    }
                    assert forall|a: int| 0 <= a < k + 1 && self.is_output_at(#[trigger] order@[a] as int) implies exists|
                        j: int,
                    |
                        0 <= j < list@.len() && (#[trigger] list@[j]).0@ == self.connections.name_at(
                            order@[a] as int,
                        ) by {
                        if a < k {
                            let j = choose|j: int|
                                0 <= j < before.len() && (#[trigger] before[j]).0@ == self.connections.name_at(
                                    order@[a] as int,
                                );
                            assert(list@[j] == before[j]);
                        } else {
                            assert(list@[list@.len() - 1].0@ == self.connections.name_at(order@[a] as int));
                        }
                    }
                }
            } else {
                assert(!self.is_output_at(i as int));
            }
            k = k + 1;
        }
        proof {
            assert forall|i: int| #[trigger] self.is_output_at(i) implies exists|j: int|
                0 <= j < list@.len() && (#[trigger] list@[j]).0@ == self.connections.name_at(i) by {
                assert(order@.contains(i as usize));
                let a = choose|a: int| 0 <= a < order@.len() && order@[a] == i as usize;
                assert(self.is_output_at(order@[a] as int));
            }
        }
        list
    }
}

/// The attribute of that name stands for a number other than zero.
pub open spec fn flag_set(attributes: &Table<AttributeVal>, name: Seq<char>) -> bool {
    attributes.has(name) && match attributes.at(name).number() {
        Some(n) => n != 0,
        None => false,
    }
}

/// Decides [`flag_set`].
pub fn has_flag(attributes: &Table<AttributeVal>, name: &str) -> (set: bool)
    ensures
        set == flag_set(attributes, name@),
{
    match attributes.get(name) {
        Some(value) => match value.to_bool() {
            Some(b) => b,
            None => false,
        },
        None => false,
    }
}

impl Module {
    /// The module is marked as the top of the design.
    pub open spec fn top(&self) -> bool {
        flag_set(&self.attributes, "top"@)
    }

    /// The module is marked as a black box.
    pub open spec fn blackbox(&self) -> bool {
        flag_set(&self.attributes, "blackbox"@)
    }

    /// Whether the attribute `top` is set.
    pub fn is_top(&self) -> (b: bool)
        ensures
            b == self.top(),
    {
        has_flag(&self.attributes, "top")
    }

    /// Whether the attribute `blackbox` is set.
    pub fn is_blackbox(&self) -> (b: bool)
        ensures
            b == self.blackbox(),
    {
        has_flag(&self.attributes, "blackbox")
    }

    /// `names` are the names of the ports of that direction, in the order of
    /// the ports.
    pub open spec fn lists_ports(&self, names: Seq<String>, direction: PortDirection) -> bool {
        exists|at: Seq<int>|
            {
                &&& #[trigger] at.len() == names.len()
                &&& forall|k: int|
                    0 <= k < at.len() ==> 0 <= #[trigger] at[k] < self.ports.size() && self.ports.value_at(
                        at[k],
                    ).direction == direction && self.ports.name_at(at[k]) == names[k]@
                &&& forall|a: int, b: int| 0 <= a < b < at.len() ==> #[trigger] at[a] < #[trigger] at[b]
                &&& forall|i: int|
                    0 <= i < self.ports.size() && (#[trigger] self.ports.value_at(i)).direction == direction
                        ==> at.contains(i)
            }
    }

    /// The names of the ports of that direction.
    pub fn filter_ports(&self, dir: PortDirection) -> (names: Vec<String>)
        ensures
            self.lists_ports(names@, dir),
    {
        let mut names: Vec<String> = Vec::new();
        let ghost mut at: Seq<int> = Seq::empty();
        let n = self.ports.len();
        let mut i: usize = 0;
        while i < n
            invariant
                i <= n,
                n == self.ports.size(),
                at.len() == names@.len(),
                forall|k: int|
                    0 <= k < at.len() ==> 0 <= #[trigger] at[k] < i && self.ports.value_at(at[k]).direction == dir
                        && self.ports.name_at(at[k]) == names@[k]@,
                forall|a: int, b: int| 0 <= a < b < at.len() ==> #[trigger] at[a] < #[trigger] at[b],
                forall|j: int|
                    0 <= j < i && (#[trigger] self.ports.value_at(j)).direction == dir ==> at.contains(j),
            decreases n - i,
        {
            if self.ports.value(i).direction == dir {
                names.push(self.ports.name(i).clone());
                proof {
                    let before = at;
                    at = at.push(i as int);
                    assert forall|j: int|
                        0 <= j < i + 1 && (#[trigger] self.ports.value_at(j)).direction == dir implies at.contains(
                        j,
                    ) by {
                        if j < i {
                            let k = choose|k: int| 0 <= k < before.len() && before[k] == j;
                            assert(at[k] == j);
                        } else {
                            assert(at[at.len() - 1] == j);
                        }
                    }
                }
            }
            i = i + 1;
        }
        names
    }

    /// The names of the input ports.
    pub fn inputs(&self) -> (names: Vec<String>)
        ensures
            self.lists_ports(names@, PortDirection::Input),
    {
        self.filter_ports(PortDirection::Input)
    }

    /// The names of the output ports.
    pub fn outputs(&self) -> (names: Vec<String>)
        ensures
            self.lists_ports(names@, PortDirection::Output),
    {
        self.filter_ports(PortDirection::Output)
    }
}

impl Netlist {
    /// A netlist without modules.
    pub fn new(creator: &str) -> (netlist: Netlist)
        ensures
            netlist.creator@ == creator@,
            netlist.modules.size() == 0,
    {
        Netlist { creator: creator.to_owned(), modules: Table::new() }
    }

    /// The position of the first module that is marked as top.
    pub open spec fn top_position(&self) -> Option<int> {
        if exists|i: int| 0 <= i < self.modules.size() && (#[trigger] self.modules.value_at(i)).top() {
            Some(
                choose|i: int|
                    0 <= i < self.modules.size() && (#[trigger] self.modules.value_at(i)).top() && forall|j: int|
                        0 <= j < i ==> !(#[trigger] self.modules.value_at(j)).top(),
            )
        } else {
            None
        }
    }

    /// The first module that is marked as top, with its name.
    pub fn get_top(&self) -> (top: Option<(&String, &Module)>)
        ensures
            match top {
                Some((name, module)) => {
                    &&& self.top_position().is_some()
                    &&& name@ == self.modules.name_at(self.top_position().unwrap())
                    &&& *module == self.modules.value_at(self.top_position().unwrap())
                    &&& module.top()
                },
                None => self.top_position().is_none(),
            },
    {
        let n = self.modules.len();
        let mut i: usize = 0;
        while i < n
            invariant
                i <= n,
                n == self.modules.size(),
                forall|j: int| 0 <= j < i ==> !(#[trigger] self.modules.value_at(j)).top(),
            decreases n - i,
        {
            if self.modules.value(i).is_top() {
                proof {
                    let p = self.top_position().unwrap();
                    assert(self.modules.value_at(i as int).top());
                    if p < i {
                        assert(!self.modules.value_at(p).top());
                    } else if p > i {
                        assert(!self.modules.value_at(i as int).top());
                    }
                }
                return Some((self.modules.name(i), self.modules.value(i)));
            }
            i = i + 1;
        }
        None
    }
}

} // verus!
