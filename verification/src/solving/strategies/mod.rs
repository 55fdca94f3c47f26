pub mod eliminate_possibilities_using_existing_singles;
pub mod eliminate_possibilities_using_y_wing;
pub mod eliminate_possibilities_using_pointing;
pub mod eliminate_possibilities_using_naked_pairs;
pub mod eliminate_possibilities_using_x_wing;
pub mod set_hidden_singles;
pub mod set_naked_singles;
pub mod eliminate_possibilities_using_hidden_groups;
pub mod set_single_randomly;
