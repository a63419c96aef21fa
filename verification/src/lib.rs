pub mod text;
pub mod var_set;
pub mod enumerate;
pub mod stg_sc_sim;
pub mod end_test;
pub mod init_test;
pub mod cpu_stats;
pub mod saveimage;
pub mod prtime;
pub mod example;
pub mod stg_util;
pub mod numparse;
pub mod stg;
pub mod com_stg;
pub mod level_c;
pub mod interpret;
pub mod com_simp;
pub mod power_sim;
pub mod bull_util;
pub mod com_power;
pub mod ordering;
pub mod senum_main;
pub mod speedup;
pub mod product;
pub mod simp_dc;
pub mod com_retime;
pub mod timing_comp;
pub mod timing_seq;
pub mod timing_fast_comp;
pub mod re_util;
