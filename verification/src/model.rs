//! The one-line-per-direction summary of a model's inputs and outputs.

use vstd::prelude::*;
use vstd::string::StringExecFns;

verus! {

/// One model input or output: its name and the text of its element type.
pub struct ModelIo {
    pub name: String,
    pub dtype: String,
}

/// How one input or output is listed: its name, a space, its element type.
pub open spec fn io_entry(e: ModelIo) -> Seq<char> {
    e.name@ + seq![' '] + e.dtype@
}

/// The entries of `list` with `sep` between each two.
pub open spec fn joined(list: Seq<Seq<char>>, sep: Seq<char>) -> Seq<char>
    decreases list.len(),
{
    if list.len() == 0 {
        Seq::empty()
    } else if list.len() == 1 {
        list[0]
    } else {
        joined(list.drop_last(), sep) + sep + list.last()
    }
}

/// The listing of a model's inputs or outputs, comma separated.
pub open spec fn io_list(entries: Seq<ModelIo>) -> Seq<char> {
    joined(entries.map_values(|e: ModelIo| io_entry(e)), ", "@)
}

/// `inputs: [..]`, a line break, `outputs: [..]`.
pub open spec fn io_summary_text(inputs: Seq<ModelIo>, outputs: Seq<ModelIo>) -> Seq<char> {
    "inputs: ["@ + io_list(inputs) + "]\noutputs: ["@ + io_list(outputs) + "]"@
}

fn append_io_list(out: &mut String, entries: &Vec<ModelIo>)
    ensures
        final(out)@ == old(out)@ + io_list(entries@),
{
    let ghost start = out@;
    let ghost list = entries@.map_values(|e: ModelIo| io_entry(e));
    let n = entries.len();
    let mut i: usize = 0;
    assert(list.take(0) =~= Seq::<Seq<char>>::empty());
    while i < n
        invariant
            n == entries@.len(),
            i <= n,
            list == entries@.map_values(|e: ModelIo| io_entry(e)),
            out@ =~= start + joined(list.take(i as int), ", "@),
        decreases n - i,
    {
        let ghost prev = out@;
        if i > 0 {
            out.append(", ");
        }
        out.append(entries[i].name.as_str());
        out.append(" ");
        out.append(entries[i].dtype.as_str());
        proof {
            reveal_strlit(" ");
            assert(" "@ =~= seq![' ']);
            let entry = io_entry(entries@[i as int]);
            assert(list.take(i + 1).drop_last() =~= list.take(i as int));
            assert(list.take(i + 1).last() == entry);
            if i == 0 {
                assert(list.take(1).len() == 1);
                assert(out@ =~= prev + entry);
                assert(joined(list.take(1), ", "@) == entry);
            } else {
                assert(out@ =~= prev + ", "@ + entry);
            }
        }
        i = i + 1;
    }
    assert(list.take(n as int) =~= list);
}

/// The summary of a model's inputs and outputs that the tool prints.
pub fn io_summary(inputs: &Vec<ModelIo>, outputs: &Vec<ModelIo>) -> (r: String)
    ensures
        r@ == io_summary_text(inputs@, outputs@),
{
    let mut out = String::new();
    out.append("inputs: [");
    append_io_list(&mut out, inputs);
    out.append("]\noutputs: [");
    append_io_list(&mut out, outputs);
    out.append("]");
    assert(out@ =~= io_summary_text(inputs@, outputs@));
    out
}

} // verus!
