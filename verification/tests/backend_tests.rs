use riscv_compiler::machine_ir::VReg;

#[test]
fn it_works() {
    assert_eq!(4, 4);
    assert_eq!(VReg::A0.name(), "a0");
}
