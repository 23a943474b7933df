use drackpad::model::{io_summary, ModelIo};

fn io(name: &str, dtype: &str) -> ModelIo {
    ModelIo { name: name.to_string(), dtype: dtype.to_string() }
}

#[test]
fn io_summary_lists_inputs_and_outputs() {
    let inputs = vec![io("input", "Float32")];
    let outputs = vec![io("xyz_x21", "Float32"), io("hand_score", "Float32")];
    assert_eq!(
        io_summary(&inputs, &outputs),
        "inputs: [input Float32]\noutputs: [xyz_x21 Float32, hand_score Float32]"
    );
}

#[test]
fn io_summary_with_nothing() {
    assert_eq!(io_summary(&vec![], &vec![]), "inputs: []\noutputs: []");
}
