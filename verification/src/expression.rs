pub mod shunting_yard;
