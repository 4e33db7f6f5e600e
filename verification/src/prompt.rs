//! The trading-recommendation prompt: a fixed natural-language template
//! wrapped around the assembled report text.

use vstd::prelude::*;
use vstd::string::StringExecFns;

verus! {

/// Template text that precedes the report data.
pub const PROMPT_HEAD: &'static str = "You are a cryptocurrency market analyst specializing in Bitcoin. Your task is to provide an insightful summary of the Bitcoin market, including price predictions, buy and sell positions, key levels, risk assessment, and overall recommendations. Use the following data to conduct your analysis:\n\n<historical_data>\n";

/// Template text that follows the report data.
pub const PROMPT_TAIL: &'static str = "\n</historical_data>\n\nAnalyze the provided data carefully, paying attention to trends, patterns, and signals from various indicators. Consider both technical and sentiment factors in your analysis.\n\nPrepare a comprehensive summary report with the following sections:\n\n1. Market Overview: Provide a brief overview of the current Bitcoin market situation based on the latest data points.\n\n2. Price Prediction: Offer price predictions for short-term (1-7 days), mid-term (1-3 months), and long-term (6-12 months) horizons. Support your predictions with relevant data and indicator analysis.\n\n3. Buy and Sell Positions: Recommend entry and exit points for short, mid, and long-term traders. Explain the rationale behind each position.\n\n4. Key Levels: Identify and explain important support and resistance levels to watch. Provide specific price points and reasons why these levels are significant.\n\n5. Indicator Analysis: Analyze each of the following indicators and explain their implications for Bitcoin's price action:\n- RSI with EMA (overbought/oversold conditions)\n- MACD (trend strength and momentum)\n- Bollinger Bands (volatility and potential reversals)\n- SMA and EMA crossovers (trend direction)\n- OBV (volume confirmation of trends)\n- ATR (volatility measurement)\n- Fear and Greed Index (market sentiment)\n\n6. Risk Assessment: Evaluate the overall risk level (low, medium, or high) for Bitcoin investments at this time. Provide a detailed explanation for your assessment, considering both technical and fundamental factors.\n\n7. Timeframe Recommendations: Offer specific recommendations for short-term, medium-term, and long-term investors. Explain how your advice differs for each timeframe and why.\n\n8. Overall Recommendation: Conclude with an overall recommendation to Buy, Sell, or Hold Bitcoin. Justify your recommendation based on the analysis of all indicators and market factors discussed in the report.\n\nBefore providing your final output, use <scratchpad> tags to organize your thoughts and analyze the data. This will help you formulate a well-reasoned and comprehensive report.\n\nPresent your final analysis and recommendations within <bitcoin_market_analysis> tags. Ensure that your report is well-structured, easy to read, and provides clear, actionable insights for investors with different time horizons.";

/// What the generated prompt holds: the template head, the report data,
/// and the template tail, concatenated.
pub open spec fn spec_prompt(data: Seq<char>) -> Seq<char> {
    PROMPT_HEAD@ + data + PROMPT_TAIL@
}

/// Wrap the assembled report data in the trading-recommendation prompt
/// template.
pub fn generate_trading_recommendation_prompt(data: &str) -> (r: String)
    ensures
        r@ == spec_prompt(data@),
{
    let mut out = String::new();
    out.append(PROMPT_HEAD);
    out.append(data);
    out.append(PROMPT_TAIL);
    proof {
        assert(out@ =~= spec_prompt(data@));
    }
    out
}

} // verus!
